//! The Elias Gamma code: the unary-coded number of offset bits, then the offset bits.
//!
//! For example, 9 is `1001` in binary; its offset bits are `001`, three of them, coded
//! `1110` in unary, so its Gamma codeword is `1110001`.
use crate::code::{first_zero, DecodeOne, Decoder, EncodeOne, Encoder};
use crate::error::InvalidCodeError;
use crate::model::{
    all_codable, fits_width, gamma_code, gamma_stream, lead_one,
    lemma_concat_codes_push, lemma_concat_codes_split, lemma_fits_width_offset,
    lemma_gamma_code_of, lemma_gamma_next, lemma_gamma_prefix_free, lemma_gamma_prefix_free_code,
    lemma_gamma_shape, lemma_leading_ones, lemma_leading_ones_at, lemma_offset_bits_of_value,
    lemma_stream_empty, lemma_stream_next, lemma_stream_strip, unary_code,
};
use crate::num::{bits_to_numeric, values, write_offset_bits, Numeric};
use crate::reader::BitReader;
use crate::unary::{UnaryDecoder, UnaryEncoder};
use crate::writer::BitWriter;
use vstd::prelude::*;

verus! {

/// Writes a sequence of magnitudes as Gamma codewords into a sentinel-framed stream.
pub struct GammaEncoder {
    writer: BitWriter,
}

impl GammaEncoder {
    /// An encoder with nothing written.
    pub fn new() -> (r: Self)
        ensures
            r.wf(),
            r.written() == Seq::<bool>::empty(),
    {
        GammaEncoder { writer: BitWriter::new(true) }
    }
}

impl EncodeOne for GammaEncoder {
    open spec fn spec_code(n: nat) -> Seq<bool> {
        gamma_code(n)
    }

    fn encode_one<T: Numeric>(num: T) -> (r: Vec<bool>) {
        let mut offset: Vec<bool> = Vec::new();
        write_offset_bits(&num, &mut offset);
        let mut bits = UnaryEncoder::encode_one(offset.len());
        bits.append(&mut offset);
        bits
    }
}

impl Encoder for GammaEncoder {
    open spec fn spec_stream(vs: Seq<nat>) -> Seq<bool> {
        gamma_stream(vs)
    }

    closed spec fn wf(&self) -> bool {
        &&& self.writer.wf()
        &&& self.writer.uses_sentinel()
        &&& self.writer.buffer().is_packed()
        &&& self.writer.buffer()@.len() < usize::MAX
    }

    closed spec fn written(&self) -> Seq<bool> {
        self.writer.buffer()@
    }

    fn encode<T: Numeric>(&mut self, nums: &[T]) {
        let ghost vals = values(nums@);
        let mut offset: Vec<bool> = Vec::new();
        let mut i: usize = 0;
        while i < nums.len()
            invariant
                i <= nums@.len(),
                vals == values(nums@),
                self.wf(),
                self.written() == old(self).written() + gamma_stream(vals.take(i as int)),
                forall|j: int| 0 <= j < nums@.len() ==> #[trigger] vals[j] >= 1,
                old(self).written().len() + gamma_stream(vals).len() < usize::MAX,
            decreases nums@.len() - i,
        {
            offset.clear();
            write_offset_bits(&nums[i], &mut offset);
            let len_bits = UnaryEncoder::encode_one(offset.len());
            proof {
                assert(vals[i as int] == nums@[i as int].spec_value());
                assert(vals.take(i + 1) =~= vals.take(i as int).push(vals[i as int]));
                lemma_concat_codes_push(vals.take(i as int), vals[i as int], |n: nat| gamma_code(n));
                lemma_concat_codes_split(vals, i + 1, |n: nat| gamma_code(n));
                assert(gamma_code(vals[i as int]) == len_bits@ + offset@);
            }
            self.writer.write_bits(len_bits.as_slice());
            self.writer.write_bits(offset.as_slice());
            proof {
                assert(self.written() =~= old(self).written() + gamma_stream(vals.take(i + 1)));
            }
            i += 1;
        }
        proof {
            assert(vals.take(nums@.len() as int) =~= vals);
        }
    }

    fn finalize(self) -> (r: Vec<u8>) {
        self.writer.finalize()
    }
}

/// Reads a sentinel-framed stream of Gamma codewords.
pub struct GammaDecoder {
    reader: BitReader,
}

impl GammaDecoder {
    /// A decoder of the bytes of `reader`.
    pub fn new(reader: Vec<u8>) -> (r: Self)
        ensures
            r.wf(),
            r.source() == reader@,
    {
        GammaDecoder { reader: BitReader::new(reader, true) }
    }

    /// The magnitudes whose Gamma codewords make up `bits`, in order; each must be
    /// positive and fit `T` with one bit to spare.
    pub fn decode_bits<T: Numeric>(bits: &[bool]) -> (r: Result<Vec<T>, InvalidCodeError>)
        ensures
            r matches Ok(vs) ==> all_codable(values(vs@), T::spec_bits()) && gamma_stream(
                values(vs@),
            ) == bits@,
            r matches Err(e) ==> e == InvalidCodeError::GammaCodeError,
            forall|ns: Seq<nat>|
                #![trigger gamma_stream(ns)]
                all_codable(ns, T::spec_bits()) && gamma_stream(ns) == bits@ ==> (r matches Ok(vs)
                    && values(vs@) == ns),
    {
        let ghost width = T::spec_bits();
        let mut nums: Vec<T> = Vec::new();
        let mut cur: &[bool] = bits;
        proof {
            lemma_gamma_prefix_free_code();
            assert(gamma_stream(values(nums@)) =~= Seq::<bool>::empty());
            assert(bits@ =~= gamma_stream(values(nums@)) + cur@);
        }
        while cur.len() > 0
            invariant
                width == T::spec_bits(),
                all_codable(values(nums@), width),
                bits@ == gamma_stream(values(nums@)) + cur@,
            decreases cur@.len(),
        {
            let ghost nv = values(nums@);
            proof {
                T::lemma_bits_range();
                lemma_gamma_prefix_free_code();
            }
            let idx = first_zero(cur, 0);
            if idx == cur.len() {
                proof {
                    assert forall|ns: Seq<nat>|
                        all_codable(ns, width) && #[trigger] gamma_stream(ns) == bits@ implies false by {
                        lemma_stream_next(ns, nv, cur@, width, |n: nat| gamma_code(n));
                        let w = ns[nv.len() as int];
                        lemma_gamma_next(w, gamma_stream(ns.subrange(nv.len() + 1 as int, ns.len() as int)), width);
                        lemma_leading_ones(cur@);
                    }
                }
                return Err(InvalidCodeError::GammaCodeError);
            }
            proof {
                lemma_leading_ones_at(cur@, idx as nat);
            }
            let (len_bits, rest) = cur.split_at(idx + 1);
            let len = match UnaryDecoder::decode_one(len_bits) {
                Ok(l) => l,
                Err(_) => {
                    proof {
                        assert(unary_code(idx as nat) =~= len_bits@);
                    }
                    return Err(InvalidCodeError::GammaCodeError);
                },
            };
            proof {
                assert(unary_code(idx as nat) =~= len_bits@);
                assert(len == idx);
            }
            if rest.len() < len {
                proof {
                    assert forall|ns: Seq<nat>|
                        all_codable(ns, width) && #[trigger] gamma_stream(ns) == bits@ implies false by {
                        lemma_stream_next(ns, nv, cur@, width, |n: nat| gamma_code(n));
                        let w = ns[nv.len() as int];
                        lemma_gamma_next(w, gamma_stream(ns.subrange(nv.len() + 1 as int, ns.len() as int)), width);
                    }
                }
                return Err(InvalidCodeError::GammaCodeError);
            }
            let (offset, remaining) = rest.split_at(len);
            let mut n_bits: Vec<bool> = Vec::new();
            n_bits.push(true);
            n_bits.extend_from_slice(offset);
            proof {
                assert(n_bits@ =~= lead_one(offset@));
            }
            let num = match bits_to_numeric::<T>(n_bits.as_slice()) {
                Ok(v) => v,
                Err(_) => {
                    proof {
                        assert forall|ns: Seq<nat>|
                            all_codable(ns, width) && #[trigger] gamma_stream(ns) == bits@ implies false by {
                            lemma_stream_next(ns, nv, cur@, width, |n: nat| gamma_code(n));
                            let w = ns[nv.len() as int];
                            lemma_gamma_next(w, gamma_stream(ns.subrange(nv.len() + 1 as int, ns.len() as int)), width);
                        }
                    }
                    return Err(InvalidCodeError::GammaCodeError);
                },
            };
            proof {
                let k = idx as nat;
                let word = cur@.subrange(0, 2 * k + 1 as int);
                assert(word.subrange(k + 1 as int, 2 * k + 1 as int) =~= offset@);
                lemma_leading_ones_at(word, k);
                lemma_gamma_code_of(word, k);
                let v = num.spec_value();
                lemma_offset_bits_of_value(offset@);
                lemma_fits_width_offset(v, width);
                assert(cur@ =~= word + remaining@);
                lemma_concat_codes_push(nv, v, |n: nat| gamma_code(n));
                assert(values(nums@.push(num)) =~= nv.push(v));
            }
            nums.push(num);
            cur = remaining;
        }
        proof {
            let nv = values(nums@);
            assert(bits@ =~= gamma_stream(nv));
            assert forall|ns: Seq<nat>|
                all_codable(ns, width) && #[trigger] gamma_stream(ns) == bits@ implies ns == nv by {
                assert(gamma_stream(ns) == gamma_stream(nv) + Seq::<bool>::empty());
                lemma_stream_strip(ns, nv, Seq::empty(), width, |n: nat| gamma_code(n));
                lemma_stream_empty(ns.subrange(nv.len() as int, ns.len() as int), |n: nat| gamma_code(n));
                assert(ns =~= nv);
            }
        }
        Ok(nums)
    }
}

impl DecodeOne for GammaDecoder {
    open spec fn spec_code(n: nat) -> Seq<bool> {
        gamma_code(n)
    }

    fn decode_one<T: Numeric>(bits: &[bool]) -> (r: Result<T, InvalidCodeError>)
        ensures
            r matches Err(e) ==> e == InvalidCodeError::GammaCodeError,
    {
        let ghost width = T::spec_bits();
        proof {
            T::lemma_bits_range();
        }
        let idx = first_zero(bits, 0);
        if idx == bits.len() {
            proof {
                assert forall|n: nat| 1 <= n && fits_width(n, width) && #[trigger] gamma_code(n) == bits@ implies false by {
                    lemma_gamma_next(n, Seq::empty(), width);
                    assert(gamma_code(n) + Seq::<bool>::empty() =~= gamma_code(n));
                    lemma_leading_ones(bits@);
                }
            }
            return Err(InvalidCodeError::GammaCodeError);
        }
        proof {
            lemma_leading_ones_at(bits@, idx as nat);
        }
        let (len_bits, rest) = bits.split_at(idx + 1);
        let len = match UnaryDecoder::decode_one(len_bits) {
            Ok(l) => l,
            Err(_) => {
                proof {
                    assert(unary_code(idx as nat) =~= len_bits@);
                }
                return Err(InvalidCodeError::GammaCodeError);
            },
        };
        proof {
            assert(unary_code(idx as nat) =~= len_bits@);
            assert(len == idx);
        }
        if rest.len() != len {
            proof {
                assert forall|n: nat| 1 <= n && fits_width(n, width) && #[trigger] gamma_code(n) == bits@ implies false by {
                    lemma_gamma_shape(n, Seq::empty());
                    assert(gamma_code(n) + Seq::<bool>::empty() =~= gamma_code(n));
                }
            }
            return Err(InvalidCodeError::GammaCodeError);
        }
        let mut n_bits: Vec<bool> = Vec::new();
        n_bits.push(true);
        n_bits.extend_from_slice(rest);
        proof {
            assert(n_bits@ =~= lead_one(rest@));
        }
        match bits_to_numeric::<T>(n_bits.as_slice()) {
            Ok(num) => {
                proof {
                    let k = idx as nat;
                    assert(bits@.subrange(k + 1 as int, 2 * k + 1 as int) =~= rest@);
                    lemma_gamma_code_of(bits@, k);
                    let v = num.spec_value();
                    lemma_offset_bits_of_value(rest@);
                    lemma_fits_width_offset(v, width);
                    assert forall|n: nat| 1 <= n && fits_width(n, width) && #[trigger] gamma_code(n) == bits@ implies n == v by {
                        lemma_gamma_prefix_free(n, v, Seq::empty(), Seq::empty());
                    }
                }
                Ok(num)
            },
            Err(_) => {
                proof {
                    assert forall|n: nat| 1 <= n && fits_width(n, width) && #[trigger] gamma_code(n) == bits@ implies false by {
                        lemma_gamma_next(n, Seq::empty(), width);
                        assert(gamma_code(n) + Seq::<bool>::empty() =~= gamma_code(n));
                    }
                }
                Err(InvalidCodeError::GammaCodeError)
            },
        }
    }
}

impl Decoder for GammaDecoder {
    open spec fn spec_stream(vs: Seq<nat>) -> Seq<bool> {
        gamma_stream(vs)
    }

    closed spec fn wf(&self) -> bool {
        self.reader.uses_sentinel()
    }

    closed spec fn source(&self) -> Seq<u8> {
        self.reader.source()
    }

    fn decode<T: Numeric>(self) -> (r: Result<Vec<T>, InvalidCodeError>)
        ensures
            r matches Err(e) ==> e == InvalidCodeError::GammaCodeError,
    {
        let bitvec = match self.reader.read_to_end() {
            Ok(bv) => bv,
            Err(_) => return Err(InvalidCodeError::GammaCodeError),
        };
        let bits = bitvec.into_bits();
        GammaDecoder::decode_bits(bits.as_slice())
    }
}

} // verus!
