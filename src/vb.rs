//! The Variable-Byte code: base-128 digits, most significant first, seven bits to a
//! byte, with the high bit set on the last byte of each value only.
use crate::error::{InvalidCodeError, InvalidVariableByteCode};
use crate::model::{bits_of_bytes, concat_codes, frames, lemma_concat_codes_push, lemma_concat_codes_split};
use crate::num::{values, Numeric};
use crate::reader::BitReader;
use crate::writer::BitWriter;
use vstd::arithmetic::power2::{lemma2_to64, lemma_pow2_strictly_increases, pow2};
use vstd::prelude::*;

verus! {

/// The base-128 digits of `n`, most significant first.
pub open spec fn vb_digits(n: nat) -> Seq<u8>
    decreases n,
{
    if n < 128 {
        seq![n as u8]
    } else {
        vb_digits(n / 128).push((n % 128) as u8)
    }
}

/// The Variable-Byte codeword of `n`: its digits, with the high bit set on the last.
pub open spec fn vb_code(n: nat) -> Seq<u8> {
    let d = vb_digits(n);
    d.update(d.len() - 1, (d.last() + 128) as u8)
}

/// The codewords of `vs`, one after another.
pub open spec fn vb_stream(vs: Seq<nat>) -> Seq<u8> {
    concat_codes(vs, |n: nat| vb_code(n))
}

/// The number that the low seven bits of `bytes` stand for, as base-128 digits.
pub open spec fn vb_value(bytes: Seq<u8>) -> nat
    decreases bytes.len(),
{
    if bytes.len() == 0 {
        0
    } else {
        128 * vb_value(bytes.drop_last()) + (bytes.last() % 128) as nat
    }
}

/// One value's group: the last byte, and only it, has the high bit set.
pub open spec fn vb_valid(bytes: Seq<u8>) -> bool {
    &&& bytes.len() > 0
    &&& bytes.last() >= 128
    &&& forall|i: int| 0 <= i < bytes.len() - 1 ==> #[trigger] bytes[i] < 128
}

/// Scans `bytes` in order, accumulating `128 * acc + low seven bits`; a byte with the
/// high bit ends a value. Gives the values ended so far and the pending accumulator, or
/// nothing once an accumulator reaches `2^width`.
pub open spec fn vb_scan(bytes: Seq<u8>, width: nat) -> Option<(Seq<nat>, nat)>
    decreases bytes.len(),
{
    if bytes.len() == 0 {
        Some((Seq::empty(), 0))
    } else {
        match vb_scan(bytes.drop_last(), width) {
            None => None,
            Some((vs, acc)) => {
                let a = 128 * acc + (bytes.last() % 128) as nat;
                if a >= pow2(width) {
                    None
                } else if bytes.last() >= 128 {
                    Some((vs.push(a), 0))
                } else {
                    Some((vs, a))
                }
            },
        }
    }
}

/// The values of a Variable-Byte stream of type of `width` bits: there are none when the
/// last group lacks its final byte or a value does not fit.
pub open spec fn vb_decode_stream(bytes: Seq<u8>, width: nat) -> Option<Seq<nat>> {
    if bytes.len() > 0 && bytes.last() < 128 {
        None
    } else {
        match vb_scan(bytes, width) {
            Some((vs, _)) => Some(vs),
            None => None,
        }
    }
}

/// The payload bytes of a stream framed by whole bytes: all but a last sentinel byte
/// `0x80`.
pub open spec fn vb_payload(source: Seq<u8>) -> Option<Seq<u8>> {
    if source.len() == 0 {
        Some(Seq::empty())
    } else if source.last() == 0x80 {
        Some(source.drop_last())
    } else {
        None
    }
}

/// The digits stand for the number.
pub proof fn lemma_vb_digits(n: nat)
    ensures
        vb_value(vb_digits(n)) == n,
        vb_digits(n).len() > 0,
        forall|i: int| 0 <= i < vb_digits(n).len() ==> #[trigger] vb_digits(n)[i] < 128,
    decreases n,
{
    if n < 128 {
        assert(vb_digits(n).drop_last() =~= Seq::<u8>::empty());
        assert(vb_value(Seq::<u8>::empty()) == 0);
        assert(vb_value(vb_digits(n)) == 128 * vb_value(Seq::<u8>::empty()) + n);
    } else {
        lemma_vb_digits(n / 128);
        assert(vb_digits(n).drop_last() =~= vb_digits(n / 128));
        assert(vb_value(vb_digits(n)) == 128 * (n / 128) + n % 128);
        assert forall|i: int| 0 <= i < vb_digits(n).len() implies #[trigger] vb_digits(n)[i] < 128 by {
            if i < vb_digits(n).len() - 1 {
                assert(vb_digits(n)[i] == vb_digits(n / 128)[i]);
            }
        }
    }
}

/// Every codeword is a valid group that stands for its number.
pub proof fn lemma_vb_code(n: nat)
    ensures
        vb_valid(vb_code(n)),
        vb_value(vb_code(n)) == n,
{
    lemma_vb_digits(n);
    let d = vb_digits(n);
    assert(vb_code(n).drop_last() =~= d.drop_last());
}

/// A prefix of a group never stands for more than the group.
pub proof fn lemma_vb_value_prefix(bytes: Seq<u8>, i: int)
    requires
        0 <= i <= bytes.len(),
    ensures
        vb_value(bytes.take(i)) <= vb_value(bytes),
    decreases bytes.len() - i,
{
    if i < bytes.len() {
        lemma_vb_value_prefix(bytes, i + 1);
        assert(bytes.take(i + 1).drop_last() =~= bytes.take(i));
    } else {
        assert(bytes.take(i) =~= bytes);
    }
}

/// Once a scan fails, it fails on every longer prefix.
pub proof fn lemma_vb_scan_fails(bytes: Seq<u8>, i: int, width: nat)
    requires
        0 <= i <= bytes.len(),
        vb_scan(bytes.take(i), width) is None,
    ensures
        vb_scan(bytes, width) is None,
    decreases bytes.len() - i,
{
    if i < bytes.len() {
        assert(bytes.take(i + 1).drop_last() =~= bytes.take(i));
        lemma_vb_scan_fails(bytes, i + 1, width);
    } else {
        assert(bytes.take(i) =~= bytes);
    }
}

/// Writes a sequence of magnitudes as Variable-Byte codewords into a stream framed by a
/// last sentinel byte.
pub struct VBEncoder {
    writer: BitWriter,
}

impl VBEncoder {
    pub closed spec fn wf(&self) -> bool {
        &&& self.writer.wf()
        &&& self.writer.uses_sentinel()
        &&& self.writer.buffer().spec_len() == 8 * self.writer.buffer().bytes().len()
        &&& 8 * (self.writer.buffer().bytes().len() + 1) <= usize::MAX
    }

    /// The bytes written so far.
    pub closed spec fn written(&self) -> Seq<u8> {
        self.writer.buffer().bytes()
    }

    /// An encoder with nothing written.
    pub fn new() -> (r: Self)
        ensures
            r.wf(),
            r.written() == Seq::<u8>::empty(),
    {
        let r = VBEncoder { writer: BitWriter::new(true) };
        proof {
            assert(r.writer.buffer()@.len() == r.writer.buffer().spec_len());
            assert(r.written() =~= Seq::<u8>::empty());
        }
        r
    }

    /// The codewords of `nums`, one after another.
    pub fn encode<T: Numeric>(nums: &[T]) -> (r: Vec<u8>)
        ensures
            r@ == vb_stream(values(nums@)),
    {
        let ghost vals = values(nums@);
        let mut encoded: Vec<u8> = Vec::new();
        let mut i: usize = 0;
        while i < nums.len()
            invariant
                i <= nums@.len(),
                vals == values(nums@),
                encoded@ == vb_stream(vals.take(i as int)),
            decreases nums@.len() - i,
        {
            let bytes = VBEncoder::encode_one(nums[i]);
            proof {
                assert(vals[i as int] == nums@[i as int].spec_value());
                assert(vals.take(i + 1) =~= vals.take(i as int).push(vals[i as int]));
                lemma_concat_codes_push(vals.take(i as int), vals[i as int], |n: nat| vb_code(n));
            }
            encoded.extend_from_slice(bytes.as_slice());
            i += 1;
        }
        proof {
            assert(vals.take(nums@.len() as int) =~= vals);
        }
        encoded
    }

    /// The codeword of `n`.
    pub fn encode_one<T: Numeric>(n: T) -> (r: Vec<u8>)
        ensures
            r@ == vb_code(n.spec_value()),
    {
        let ghost n0 = n.spec_value();
        let mut n = n.to_u128();
        let mut bytes: Vec<u8> = Vec::new();
        while n >= 128
            invariant
                vb_digits(n0) == vb_digits(n as nat) + bytes@,
            decreases n,
        {
            proof {
                assert(vb_digits(n as nat) + bytes@ =~= vb_digits((n / 128) as nat) + seq![
                    (n % 128) as u8,
                ] + bytes@);
            }
            let ghost prev = bytes@;
            bytes.insert(0, (n % 128) as u8);
            proof {
                assert(seq![(n % 128) as u8] + prev =~= bytes@);
            }
            n = n / 128;
        }
        bytes.insert(0, n as u8);
        let last = bytes.len() - 1;
        let b = bytes[last];
        proof {
            lemma_vb_digits(n0);
            assert(bytes@ =~= vb_digits(n0));
            assert(b < 128);
            assert(b | 0x80 == b + 128) by (bit_vector)
                requires
                    b < 128,
            ;
        }
        bytes.set(last, b | 0x80);
        bytes
    }

    /// Writes the codewords of `nums`, in order.
    pub fn write<T: Numeric>(&mut self, nums: &[T])
        requires
            old(self).wf(),
            8 * (old(self).written().len() + vb_stream(values(nums@)).len() + 1) <= usize::MAX,
        ensures
            final(self).wf(),
            final(self).written() == old(self).written() + vb_stream(values(nums@)),
    {
        let ghost vals = values(nums@);
        let mut i: usize = 0;
        while i < nums.len()
            invariant
                i <= nums@.len(),
                vals == values(nums@),
                self.wf(),
                self.written() == old(self).written() + vb_stream(vals.take(i as int)),
                8 * (old(self).written().len() + vb_stream(vals).len() + 1) <= usize::MAX,
            decreases nums@.len() - i,
        {
            let num_bytes = VBEncoder::encode_one(nums[i]);
            proof {
                assert(vals[i as int] == nums@[i as int].spec_value());
                assert(vals.take(i + 1) =~= vals.take(i as int).push(vals[i as int]));
                lemma_concat_codes_push(vals.take(i as int), vals[i as int], |n: nat| vb_code(n));
                lemma_concat_codes_split(vals, i + 1, |n: nat| vb_code(n));
                lemma_vb_code(vals[i as int]);
            }
            self.writer.get_mut().extend_from_byte_slice(num_bytes.as_slice());
            proof {
                assert(self.written() =~= old(self).written() + vb_stream(vals.take(i + 1)));
            }
            i += 1;
        }
        proof {
            assert(vals.take(nums@.len() as int) =~= vals);
        }
    }

    /// The written bytes followed by a sentinel byte `0x80`; nothing when nothing was written.
    pub fn finalize(self) -> (r: Vec<u8>)
        requires
            self.wf(),
        ensures
            frames(r@, bits_of_bytes(self.written())),
    {
        proof {
            let buf = self.writer.buffer();
            assert(buf@ =~= bits_of_bytes(buf.bytes()));
        }
        self.writer.finalize()
    }
}

/// Reads Variable-Byte codewords.
pub struct VBDecoder {
    reader: BitReader,
}

/// The values of the Variable-Byte stream `bytes`, each of which must fit `T`.
fn decode_vb_bytes<T: Numeric>(bytes: &[u8]) -> (r: Result<Vec<T>, InvalidCodeError>)
    ensures
        match r {
            Ok(vs) => vb_decode_stream(bytes@, T::spec_bits()) == Some(values(vs@)),
            Err(e) => e == InvalidCodeError::VBCodeError && vb_decode_stream(bytes@, T::spec_bits())
                is None,
        },
{
    let ghost width = T::spec_bits();
    let max = T::max_value();
    let mut nums: Vec<T> = Vec::new();
    let mut acc: u128 = 0;
    let mut i: usize = 0;
    proof {
        assert(bytes@.take(0) =~= Seq::<u8>::empty());
        assert(values(nums@) =~= Seq::<nat>::empty());
        T::lemma_bits_range();
        lemma2_to64();
        if width > 8 {
            lemma_pow2_strictly_increases(8, width);
        }
    }
    while i < bytes.len()
        invariant
            i <= bytes@.len(),
            width == T::spec_bits(),
            max + 1 == pow2(width),
            max >= 255,
            vb_scan(bytes@.take(i as int), width) == Some((values(nums@), acc as nat)),
        decreases bytes@.len() - i,
    {
        let byte = bytes[i];
        let digit = (byte % 128) as u128;
        proof {
            assert(bytes@.take(i + 1).drop_last() =~= bytes@.take(i as int));
            assert(bytes@.take(i + 1).last() == byte);
        }
        if acc > (max - digit) / 128 {
            proof {
                assert(128 * acc + digit > max) by (nonlinear_arith)
                    requires
                        acc > (max - digit) / 128,
                        digit <= max,
                ;
                lemma_vb_scan_fails(bytes@, i + 1, width);
            }
            return Err(InvalidCodeError::VBCodeError);
        }
        proof {
            assert(128 * acc + digit <= max) by (nonlinear_arith)
                requires
                    acc <= (max - digit) / 128,
                    digit <= max,
            ;
        }
        acc = 128 * acc + digit;
        if byte >= 128 {
            let v = T::from_u128(acc);
            proof {
                assert(values(nums@.push(v)) =~= values(nums@).push(acc as nat));
            }
            nums.push(v);
            acc = 0;
        }
        i += 1;
    }
    proof {
        assert(bytes@.take(bytes@.len() as int) =~= bytes@);
    }
    if bytes.len() > 0 && bytes[bytes.len() - 1] < 128 {
        return Err(InvalidCodeError::VBCodeError);
    }
    Ok(nums)
}

impl VBDecoder {
    /// The bytes to decode.
    pub closed spec fn source(&self) -> Seq<u8> {
        self.reader.source()
    }

    pub closed spec fn wf(&self) -> bool {
        self.reader.uses_sentinel()
    }

    /// A decoder of the bytes of `reader`, framed by a last sentinel byte.
    pub fn new(reader: Vec<u8>) -> (r: Self)
        ensures
            r.wf(),
            r.source() == reader@,
    {
        VBDecoder { reader: BitReader::new(reader, true) }
    }

    /// The values of the framed stream, each of which must fit `T`.
    pub fn decode<T: Numeric>(self) -> (r: Result<Vec<T>, InvalidCodeError>)
        requires
            self.wf(),
            8 * self.source().len() <= usize::MAX,
        ensures
            match r {
                Ok(vs) => vb_payload(self.source()) matches Some(bs) && vb_decode_stream(
                    bs,
                    T::spec_bits(),
                ) == Some(values(vs@)),
                Err(e) => e == InvalidCodeError::VBCodeError && (vb_payload(self.source()) matches Some(
                    bs,
                ) ==> vb_decode_stream(bs, T::spec_bits()) is None),
            },
    {
        let bitvec = match self.reader.read_to_end() {
            Ok(bv) => bv,
            Err(_) => return Err(InvalidCodeError::VBCodeError),
        };
        if bitvec.len() % 8 != 0 {
            return Err(InvalidCodeError::VBCodeError);
        }
        let bytes = bitvec.into_bytes();
        decode_vb_bytes(bytes.as_slice())
    }

    /// The number whose codeword is `bytes`, which must fit a `u32`. Decoding the codeword
    /// of such a number always gives it back.
    pub fn decode_one(bytes: &[u8]) -> (r: Result<u32, InvalidVariableByteCode>)
        ensures
            match r {
                Ok(n) => vb_valid(bytes@) && vb_value(bytes@) == n,
                Err(_) => !vb_valid(bytes@) || vb_value(bytes@) > u32::MAX,
            },
            forall|n: nat| n <= u32::MAX && #[trigger] vb_code(n) == bytes@ ==> r == Ok::<
                u32,
                InvalidVariableByteCode,
            >(n as u32),
    {
        proof {
            assert forall|n: nat| n <= u32::MAX && #[trigger] vb_code(n) == bytes@ implies vb_valid(bytes@)
                && vb_value(bytes@) == n by {
                lemma_vb_code(n);
            }
        }
        if !VBDecoder::is_valid_code(bytes) {
            return Err(InvalidVariableByteCode);
        }
        let mut n: u64 = 0;
        let mut i: usize = 0;
        while i < bytes.len()
            invariant
                i <= bytes@.len(),
                n == vb_value(bytes@.take(i as int)),
                n <= u32::MAX,
                forall|m: nat| m <= u32::MAX && #[trigger] vb_code(m) == bytes@ ==> vb_value(bytes@) == m,
            decreases bytes@.len() - i,
        {
            let digit = (bytes[i] % 128) as u64;
            proof {
                assert(bytes@.take(i + 1).drop_last() =~= bytes@.take(i as int));
                assert(bytes@.take(i + 1).last() == bytes@[i as int]);
            }
            if n > (0xffff_ffff - digit) / 128 {
                proof {
                    lemma_vb_value_prefix(bytes@, i + 1);
                    assert(128 * n + digit > 0xffff_ffff) by (nonlinear_arith)
                        requires
                            n > (0xffff_ffff - digit) / 128,
                            digit < 128,
                    ;
                }
                return Err(InvalidVariableByteCode);
            }
            proof {
                assert(128 * n + digit <= 0xffff_ffff) by (nonlinear_arith)
                    requires
                        n <= (0xffff_ffff - digit) / 128,
                        digit < 128,
                ;
            }
            n = 128 * n + digit;
            i += 1;
        }
        proof {
            assert(bytes@.take(bytes@.len() as int) =~= bytes@);
        }
        Ok(n as u32)
    }

    /// Whether `bytes` is one value's group: only its last byte has the high bit set.
    pub fn is_valid_code(bytes: &[u8]) -> (r: bool)
        ensures
            r == vb_valid(bytes@),
    {
        let len = bytes.len();
        if len == 0 {
            return false;
        }
        let mut i: usize = 0;
        while i < len - 1
            invariant
                len == bytes@.len(),
                len > 0,
                i <= len - 1,
                forall|j: int| 0 <= j < i ==> #[trigger] bytes@[j] < 128,
            decreases len - 1 - i,
        {
            if bytes[i] >= 128 {
                return false;
            }
            i += 1;
        }
        bytes[len - 1] >= 128
    }
}

} // verus!
