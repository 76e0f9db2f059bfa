//! The Elias Delta code: the Gamma codeword of the bit length, then the offset bits.
//!
//! For example, 9 is `1001` in binary, four bits long; the Gamma codeword of 4 is `11000`
//! and the offset bits of 9 are `001`, so its Delta codeword is `11000001`.
use crate::code::{first_zero, DecodeOne, Decoder, EncodeOne, Encoder};
use crate::error::InvalidCodeError;
use crate::gamma::{GammaDecoder, GammaEncoder};
use crate::model::{
    all_codable, delta_code, delta_stream, fits_width, gamma_code, lead_one,
    lemma_concat_codes_push, lemma_concat_codes_split, lemma_delta_next, lemma_delta_prefix_free,
    lemma_delta_prefix_free_code, lemma_fits_width_offset, lemma_gamma_prefix_free,
    lemma_leading_ones, lemma_leading_ones_at, lemma_offset_bits_len_bound,
    lemma_offset_bits_of_value, lemma_stream_empty, lemma_stream_next, lemma_stream_strip,
    offset_bits, unary_code,
};
use crate::num::{bits_to_numeric, values, write_offset_bits, Numeric};
use crate::reader::BitReader;
use crate::unary::UnaryDecoder;
use crate::writer::BitWriter;
use vstd::prelude::*;

verus! {

/// The Gamma codeword of the bit length of `num` (its offset bits and leading one),
/// followed by its offset bits.
fn delta_codeword<T: Numeric>(num: &T, offset: &mut Vec<bool>) -> (r: Vec<bool>)
    requires
        num.spec_value() >= 1,
    ensures
        r@ + final(offset)@ == delta_code(num.spec_value()),
        final(offset)@ == offset_bits(num.spec_value()),
{
    offset.clear();
    write_offset_bits(num, offset);
    proof {
        num.lemma_value_range();
        lemma_offset_bits_len_bound(num.spec_value(), T::spec_bits());
        assert(offset@ =~= offset_bits(num.spec_value()));
    }
    GammaEncoder::encode_one((offset.len() + 1) as u64)
}

/// Writes a sequence of magnitudes as Delta codewords into a sentinel-framed stream.
pub struct DeltaEncoder {
    writer: BitWriter,
}

impl DeltaEncoder {
    /// An encoder with nothing written.
    pub fn new() -> (r: Self)
        ensures
            r.wf(),
            r.written() == Seq::<bool>::empty(),
    {
        DeltaEncoder { writer: BitWriter::new(true) }
    }
}

impl EncodeOne for DeltaEncoder {
    open spec fn spec_code(n: nat) -> Seq<bool> {
        delta_code(n)
    }

    fn encode_one<T: Numeric>(num: T) -> (r: Vec<bool>) {
        let mut offset: Vec<bool> = Vec::new();
        let mut bits = delta_codeword(&num, &mut offset);
        bits.append(&mut offset);
        bits
    }
}

impl Encoder for DeltaEncoder {
    open spec fn spec_stream(vs: Seq<nat>) -> Seq<bool> {
        delta_stream(vs)
    }

    closed spec fn wf(&self) -> bool {
        &&& self.writer.wf()
        &&& self.writer.uses_sentinel()
        &&& self.writer.buffer().is_packed()
        &&& self.writer.buffer()@.len() < usize::MAX
    }

    closed spec fn written(&self) -> Seq<bool> {
        self.writer.buffer()@
    }

    fn encode<T: Numeric>(&mut self, nums: &[T]) {
        let ghost vals = values(nums@);
        let mut offset: Vec<bool> = Vec::new();
        let mut i: usize = 0;
        while i < nums.len()
            invariant
                i <= nums@.len(),
                vals == values(nums@),
                self.wf(),
                self.written() == old(self).written() + delta_stream(vals.take(i as int)),
                forall|j: int| 0 <= j < nums@.len() ==> #[trigger] vals[j] >= 1,
                old(self).written().len() + delta_stream(vals).len() < usize::MAX,
            decreases nums@.len() - i,
        {
            proof {
                assert(vals[i as int] == nums@[i as int].spec_value());
            }
            let len_bits = delta_codeword(&nums[i], &mut offset);
            proof {
                assert(vals.take(i + 1) =~= vals.take(i as int).push(vals[i as int]));
                lemma_concat_codes_push(vals.take(i as int), vals[i as int], |n: nat| delta_code(n));
                lemma_concat_codes_split(vals, i + 1, |n: nat| delta_code(n));
            }
            self.writer.write_bits(len_bits.as_slice());
            self.writer.write_bits(offset.as_slice());
            proof {
                assert(self.written() =~= old(self).written() + delta_stream(vals.take(i + 1)));
            }
            i += 1;
        }
        proof {
            assert(vals.take(nums@.len() as int) =~= vals);
        }
    }

    fn finalize(self) -> (r: Vec<u8>) {
        self.writer.finalize()
    }
}

/// Reads a sentinel-framed stream of Delta codewords.
pub struct DeltaDecoder {
    reader: BitReader,
}

impl DeltaDecoder {
    /// A decoder of the bytes of `reader`.
    pub fn new(reader: Vec<u8>) -> (r: Self)
        ensures
            r.wf(),
            r.source() == reader@,
    {
        DeltaDecoder { reader: BitReader::new(reader, true) }
    }
}

/// The magnitudes whose Delta codewords make up `bits`, in order; each must be positive
/// and fit `T` with one bit to spare.
#[verifier::rlimit(60)]
fn decode_delta_bits<T: Numeric>(bits: &[bool]) -> (r: Result<Vec<T>, InvalidCodeError>)
    ensures
        r matches Ok(vs) ==> all_codable(values(vs@), T::spec_bits()) && delta_stream(values(vs@))
            == bits@,
        r matches Err(e) ==> e == InvalidCodeError::DeltaCodeError,
        forall|ns: Seq<nat>|
            #![trigger delta_stream(ns)]
            all_codable(ns, T::spec_bits()) && delta_stream(ns) == bits@ ==> (r matches Ok(vs)
                && values(vs@) == ns),
{
    let ghost width = T::spec_bits();
    let mut nums: Vec<T> = Vec::new();
    let mut cur: &[bool] = bits;
    proof {
        assert(delta_stream(values(nums@)) =~= Seq::<bool>::empty());
        assert(bits@ =~= delta_stream(values(nums@)) + cur@);
    }
    while cur.len() > 0
        invariant
            width == T::spec_bits(),
            all_codable(values(nums@), width),
            bits@ == delta_stream(values(nums@)) + cur@,
        decreases cur@.len(),
    {
        let ghost nv = values(nums@);
        proof {
            T::lemma_bits_range();
            lemma_delta_prefix_free_code();
        }
        let idx = first_zero(cur, 0);
        if idx == cur.len() {
            proof {
                assert forall|ns: Seq<nat>|
                    all_codable(ns, width) && #[trigger] delta_stream(ns) == bits@ implies false by {
                    lemma_stream_next(ns, nv, cur@, width, |n: nat| delta_code(n));
                    let w = ns[nv.len() as int];
                    lemma_delta_next(w, delta_stream(ns.subrange(nv.len() + 1 as int, ns.len() as int)), width);
                    lemma_leading_ones(cur@);
                }
            }
            return Err(InvalidCodeError::DeltaCodeError);
        }
        proof {
            lemma_leading_ones_at(cur@, idx as nat);
        }
        let (unary_bits, rest) = cur.split_at(idx + 1);
        let length_of_binary = match UnaryDecoder::decode_one(unary_bits) {
            Ok(l) => l,
            Err(_) => {
                proof {
                    assert(unary_code(idx as nat) =~= unary_bits@);
                }
                return Err(InvalidCodeError::DeltaCodeError);
            },
        };
        proof {
            assert(unary_code(idx as nat) =~= unary_bits@);
            assert(length_of_binary == idx);
        }
        if rest.len() < length_of_binary {
            proof {
                assert forall|ns: Seq<nat>|
                    all_codable(ns, width) && #[trigger] delta_stream(ns) == bits@ implies false by {
                    lemma_stream_next(ns, nv, cur@, width, |n: nat| delta_code(n));
                    let w = ns[nv.len() as int];
                    lemma_delta_next(w, delta_stream(ns.subrange(nv.len() + 1 as int, ns.len() as int)), width);
                }
            }
            return Err(InvalidCodeError::DeltaCodeError);
        }
        let (binary_bits, rest) = rest.split_at(length_of_binary);
        let mut length_bits: Vec<bool> = Vec::new();
        length_bits.extend_from_slice(unary_bits);
        length_bits.extend_from_slice(binary_bits);
        proof {
            assert(length_bits@ =~= cur@.subrange(0, 2 * idx + 1));
        }
        let total_len = match GammaDecoder::decode_one::<u64>(length_bits.as_slice()) {
            Ok(l) => l,
            Err(_) => {
                proof {
                    assert forall|ns: Seq<nat>|
                        all_codable(ns, width) && #[trigger] delta_stream(ns) == bits@ implies false by {
                        lemma_stream_next(ns, nv, cur@, width, |n: nat| delta_code(n));
                        let w = ns[nv.len() as int];
                        lemma_delta_next(w, delta_stream(ns.subrange(nv.len() + 1 as int, ns.len() as int)), width);
                        assert(<GammaDecoder as DecodeOne>::spec_code(offset_bits(w).len() + 1)
                            == length_bits@);
                    }
                }
                return Err(InvalidCodeError::DeltaCodeError);
            },
        };
        let value_length = total_len - 1;
        if (rest.len() as u64) < value_length {
            proof {
                assert forall|ns: Seq<nat>|
                    all_codable(ns, width) && #[trigger] delta_stream(ns) == bits@ implies false by {
                    lemma_stream_next(ns, nv, cur@, width, |n: nat| delta_code(n));
                    let w = ns[nv.len() as int];
                    lemma_delta_next(w, delta_stream(ns.subrange(nv.len() + 1 as int, ns.len() as int)), width);
                    lemma_gamma_prefix_free(offset_bits(w).len() + 1, total_len as nat, Seq::empty(), Seq::empty());
                    assert(gamma_code(offset_bits(w).len() + 1) + Seq::<bool>::empty() =~= gamma_code(offset_bits(w).len() + 1));
                    assert(gamma_code(total_len as nat) + Seq::<bool>::empty() =~= gamma_code(total_len as nat));
                }
            }
            return Err(InvalidCodeError::DeltaCodeError);
        }
        let (value_bits, remaining) = rest.split_at(value_length as usize);
        let mut final_bits: Vec<bool> = Vec::new();
        final_bits.push(true);
        final_bits.extend_from_slice(value_bits);
        proof {
            assert(final_bits@ =~= lead_one(value_bits@));
        }
        let num = match bits_to_numeric::<T>(final_bits.as_slice()) {
            Ok(v) => v,
            Err(_) => {
                proof {
                    assert forall|ns: Seq<nat>|
                        all_codable(ns, width) && #[trigger] delta_stream(ns) == bits@ implies false by {
                        lemma_stream_next(ns, nv, cur@, width, |n: nat| delta_code(n));
                        let w = ns[nv.len() as int];
                        lemma_delta_next(w, delta_stream(ns.subrange(nv.len() + 1 as int, ns.len() as int)), width);
                        lemma_gamma_prefix_free(offset_bits(w).len() + 1, total_len as nat, Seq::empty(), Seq::empty());
                        assert(gamma_code(offset_bits(w).len() + 1) + Seq::<bool>::empty() =~= gamma_code(offset_bits(w).len() + 1));
                        assert(gamma_code(total_len as nat) + Seq::<bool>::empty() =~= gamma_code(total_len as nat));
                    }
                }
                return Err(InvalidCodeError::DeltaCodeError);
            },
        };
        proof {
            let v = num.spec_value();
            let j = idx as int;
            let word = cur@.subrange(0, 2 * j + 1 + value_length as int);
            lemma_offset_bits_of_value(value_bits@);
            lemma_fits_width_offset(v, width);
            assert(word =~= gamma_code(total_len as nat) + value_bits@);
            assert(delta_code(v) == word);
            assert(cur@ =~= word + remaining@);
            lemma_concat_codes_push(nv, v, |n: nat| delta_code(n));
            assert(values(nums@.push(num)) =~= nv.push(v));
        }
        nums.push(num);
        cur = remaining;
    }
    proof {
        let nv = values(nums@);
        lemma_delta_prefix_free_code();
        assert(bits@ =~= delta_stream(nv));
        assert forall|ns: Seq<nat>|
            all_codable(ns, width) && #[trigger] delta_stream(ns) == bits@ implies ns == nv by {
            assert(delta_stream(ns) == delta_stream(nv) + Seq::<bool>::empty());
            lemma_stream_strip(ns, nv, Seq::empty(), width, |n: nat| delta_code(n));
            lemma_stream_empty(ns.subrange(nv.len() as int, ns.len() as int), |n: nat| delta_code(n));
            assert(ns =~= nv);
        }
    }
    Ok(nums)
}

impl DecodeOne for DeltaDecoder {
    open spec fn spec_code(n: nat) -> Seq<bool> {
        delta_code(n)
    }

    fn decode_one<T: Numeric>(bits: &[bool]) -> (r: Result<T, InvalidCodeError>)
        ensures
            r matches Err(e) ==> e == InvalidCodeError::DeltaCodeError,
    {
        let ghost width = T::spec_bits();
        proof {
            T::lemma_bits_range();
        }
        let idx = first_zero(bits, 0);
        if idx == bits.len() {
            proof {
                assert forall|n: nat| 1 <= n && fits_width(n, width) && #[trigger] delta_code(n) == bits@ implies false by {
                    lemma_delta_next(n, Seq::empty(), width);
                    assert(delta_code(n) + Seq::<bool>::empty() =~= delta_code(n));
                    lemma_leading_ones(bits@);
                }
            }
            return Err(InvalidCodeError::DeltaCodeError);
        }
        proof {
            lemma_leading_ones_at(bits@, idx as nat);
        }
        let (lb_len_bits, rest) = bits.split_at(idx + 1);
        let len_len_bits = match UnaryDecoder::decode_one(lb_len_bits) {
            Ok(l) => l,
            Err(_) => {
                proof {
                    assert(unary_code(idx as nat) =~= lb_len_bits@);
                }
                return Err(InvalidCodeError::DeltaCodeError);
            },
        };
        proof {
            assert(unary_code(idx as nat) =~= lb_len_bits@);
            assert(len_len_bits == idx);
        }
        if rest.len() < len_len_bits {
            proof {
                assert forall|n: nat| 1 <= n && fits_width(n, width) && #[trigger] delta_code(n) == bits@ implies false by {
                    lemma_delta_next(n, Seq::empty(), width);
                    assert(delta_code(n) + Seq::<bool>::empty() =~= delta_code(n));
                }
            }
            return Err(InvalidCodeError::DeltaCodeError);
        }
        let (offset_len_bits, offset) = rest.split_at(len_len_bits);
        let mut len_bits: Vec<bool> = Vec::new();
        len_bits.extend_from_slice(lb_len_bits);
        len_bits.extend_from_slice(offset_len_bits);
        proof {
            assert(len_bits@ =~= bits@.subrange(0, 2 * idx + 1));
        }
        let total_len = match GammaDecoder::decode_one::<u64>(len_bits.as_slice()) {
            Ok(l) => l,
            Err(_) => {
                proof {
                    assert forall|n: nat| 1 <= n && fits_width(n, width) && #[trigger] delta_code(n) == bits@ implies false by {
                        lemma_delta_next(n, Seq::empty(), width);
                        assert(delta_code(n) + Seq::<bool>::empty() =~= delta_code(n));
                        assert(<GammaDecoder as DecodeOne>::spec_code(offset_bits(n).len() + 1)
                            == len_bits@);
                    }
                }
                return Err(InvalidCodeError::DeltaCodeError);
            },
        };
        let len = total_len - 1;
        if (offset.len() as u64) != len {
            proof {
                assert forall|n: nat| 1 <= n && fits_width(n, width) && #[trigger] delta_code(n) == bits@ implies false by {
                    lemma_delta_next(n, Seq::empty(), width);
                    assert(delta_code(n) + Seq::<bool>::empty() =~= delta_code(n));
                    lemma_gamma_prefix_free(offset_bits(n).len() + 1, total_len as nat, Seq::empty(), Seq::empty());
                    assert(gamma_code(offset_bits(n).len() + 1) + Seq::<bool>::empty() =~= gamma_code(offset_bits(n).len() + 1));
                    assert(gamma_code(total_len as nat) + Seq::<bool>::empty() =~= gamma_code(total_len as nat));
                }
            }
            return Err(InvalidCodeError::DeltaCodeError);
        }
        let mut n_bits: Vec<bool> = Vec::new();
        n_bits.push(true);
        n_bits.extend_from_slice(offset);
        proof {
            assert(n_bits@ =~= lead_one(offset@));
        }
        match bits_to_numeric::<T>(n_bits.as_slice()) {
            Ok(num) => {
                proof {
                    let v = num.spec_value();
                    lemma_offset_bits_of_value(offset@);
                    lemma_fits_width_offset(v, width);
                    assert(bits@ =~= gamma_code(total_len as nat) + offset@);
                    assert forall|n: nat| 1 <= n && fits_width(n, width) && #[trigger] delta_code(n) == bits@ implies n == v by {
                        lemma_delta_prefix_free(n, v, Seq::empty(), Seq::empty());
                        assert(delta_code(n) + Seq::<bool>::empty() =~= delta_code(n));
                        assert(delta_code(v) + Seq::<bool>::empty() =~= delta_code(v));
                    }
                }
                Ok(num)
            },
            Err(_) => {
                proof {
                    assert forall|n: nat| 1 <= n && fits_width(n, width) && #[trigger] delta_code(n) == bits@ implies false by {
                        lemma_delta_next(n, Seq::empty(), width);
                        assert(delta_code(n) + Seq::<bool>::empty() =~= delta_code(n));
                        lemma_gamma_prefix_free(offset_bits(n).len() + 1, total_len as nat, Seq::empty(), Seq::empty());
                        assert(gamma_code(offset_bits(n).len() + 1) + Seq::<bool>::empty() =~= gamma_code(offset_bits(n).len() + 1));
                        assert(gamma_code(total_len as nat) + Seq::<bool>::empty() =~= gamma_code(total_len as nat));
                    }
                }
                Err(InvalidCodeError::DeltaCodeError)
            },
        }
    }
}

impl Decoder for DeltaDecoder {
    open spec fn spec_stream(vs: Seq<nat>) -> Seq<bool> {
        delta_stream(vs)
    }

    closed spec fn wf(&self) -> bool {
        self.reader.uses_sentinel()
    }

    closed spec fn source(&self) -> Seq<u8> {
        self.reader.source()
    }

    fn decode<T: Numeric>(self) -> (r: Result<Vec<T>, InvalidCodeError>)
        ensures
            r matches Err(e) ==> e == InvalidCodeError::DeltaCodeError,
    {
        let bitvec = match self.reader.read_to_end() {
            Ok(bv) => bv,
            Err(_) => return Err(InvalidCodeError::DeltaCodeError),
        };
        let bits = bitvec.into_bits();
        decode_delta_bits(bits.as_slice())
    }
}

} // verus!
