//! The shapes shared by the codecs: one codeword at a time, or a whole framed stream.
use crate::error::InvalidCodeError;
use crate::model::{all_codable, fits_width, frames, sentinel_payload};
use crate::num::{values, Numeric};
use vstd::prelude::*;

verus! {

/// Encodes one positive magnitude as a codeword.
pub trait EncodeOne {
    /// The codeword of `n`.
    spec fn spec_code(n: nat) -> Seq<bool>;

    /// The codeword of `num`.
    fn encode_one<T: Numeric>(num: T) -> (r: Vec<bool>)
        requires
            num.spec_value() >= 1,
        ensures
            r@ == Self::spec_code(num.spec_value()),
    ;
}

/// Decodes one codeword into a magnitude.
pub trait DecodeOne {
    /// The codeword of `n`.
    spec fn spec_code(n: nat) -> Seq<bool>;

    /// The magnitude whose codeword is `bits`; it must be positive and fit `T` with one
    /// bit to spare. Decoding the codeword of such a magnitude always gives it back.
    fn decode_one<T: Numeric>(bits: &[bool]) -> (r: Result<T, InvalidCodeError>)
        ensures
            r matches Ok(v) ==> v.spec_value() >= 1 && fits_width(v.spec_value(), T::spec_bits())
                && Self::spec_code(v.spec_value()) == bits@,
            forall|n: nat|
                #![trigger Self::spec_code(n)]
                1 <= n && fits_width(n, T::spec_bits()) && Self::spec_code(n) == bits@ ==> (r matches Ok(
                    v,
                ) && v.spec_value() == n),
    ;
}

/// Encodes a sequence of magnitudes into a sentinel-framed byte stream.
pub trait Encoder: Sized {
    /// The codewords of `vs`, one after another.
    spec fn spec_stream(vs: Seq<nat>) -> Seq<bool>;

    spec fn wf(&self) -> bool;

    /// The bits written so far.
    spec fn written(&self) -> Seq<bool>;

    /// Writes the codewords of `nums`, in order.
    fn encode<T: Numeric>(&mut self, nums: &[T])
        requires
            old(self).wf(),
            forall|i: int| 0 <= i < nums@.len() ==> #[trigger] values(nums@)[i] >= 1,
            old(self).written().len() + Self::spec_stream(values(nums@)).len() < usize::MAX,
        ensures
            final(self).wf(),
            final(self).written() == old(self).written() + Self::spec_stream(values(nums@)),
    ;

    /// The framed bytes of everything written.
    fn finalize(self) -> (r: Vec<u8>)
        requires
            self.wf(),
        ensures
            frames(r@, self.written()),
    ;
}

/// Decodes a sentinel-framed byte stream into a sequence of magnitudes.
pub trait Decoder: Sized {
    /// The codewords of `vs`, one after another.
    spec fn spec_stream(vs: Seq<nat>) -> Seq<bool>;

    spec fn wf(&self) -> bool;

    /// The bytes to decode.
    spec fn source(&self) -> Seq<u8>;

    /// The magnitudes whose codewords make up the framed payload of the source; each
    /// must be positive and fit `T` with one bit to spare.
    fn decode<T: Numeric>(self) -> (r: Result<Vec<T>, InvalidCodeError>)
        requires
            self.wf(),
            8 * self.source().len() <= usize::MAX,
        ensures
            r matches Ok(vs) ==> all_codable(values(vs@), T::spec_bits()) && sentinel_payload(
                self.source(),
            ) == Some(Self::spec_stream(values(vs@))),
            forall|ns: Seq<nat>|
                #![trigger Self::spec_stream(ns)]
                all_codable(ns, T::spec_bits()) && sentinel_payload(self.source()) == Some(
                    Self::spec_stream(ns),
                ) ==> (r matches Ok(vs) && values(vs@) == ns),
    ;
}

/// The index of the first zero-bit of `bits` at or after `from`, or the length when
/// there is none.
pub(crate) fn first_zero(bits: &[bool], from: usize) -> (r: usize)
    requires
        from <= bits@.len(),
    ensures
        from <= r <= bits@.len(),
        forall|j: int| from <= j < r ==> #[trigger] bits@[j],
        r < bits@.len() ==> !bits@[r as int],
{
    let mut idx = from;
    while idx < bits.len() && bits[idx]
        invariant
            from <= idx <= bits@.len(),
            forall|j: int| from <= j < idx ==> #[trigger] bits@[j],
        decreases bits@.len() - idx,
    {
        idx += 1;
    }
    idx
}

} // verus!
