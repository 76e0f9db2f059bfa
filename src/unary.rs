//! The unary code: `n` one-bits followed by a terminating zero-bit.
use crate::error::InvalidCodeError;
use crate::model::unary_code;
use vstd::prelude::*;

verus! {

/// Encodes a count in unary.
pub struct UnaryEncoder;

impl UnaryEncoder {
    /// `n` one-bits, then a zero-bit.
    pub fn encode_one(n: usize) -> (r: Vec<bool>)
        ensures
            r@ == unary_code(n as nat),
    {
        let mut bits: Vec<bool> = Vec::new();
        let mut i: usize = 0;
        while i < n
            invariant
                i <= n,
                bits@ == Seq::new(i as nat, |j: int| true),
            decreases n - i,
        {
            bits.push(true);
            i += 1;
            proof {
                assert(bits@ =~= Seq::new(i as nat, |j: int| true));
            }
        }
        bits.push(false);
        bits
    }

    /// `n` one-bits, then a zero-bit; the same as `encode_one`.
    pub fn encode(n: usize) -> (r: Vec<bool>)
        ensures
            r@ == unary_code(n as nat),
    {
        UnaryEncoder::encode_one(n)
    }
}

/// Decodes a unary codeword.
pub struct UnaryDecoder;

impl UnaryDecoder {
    /// The count whose unary codeword is exactly `code`: its length less one, when the
    /// last bit is the only zero.
    pub fn decode_one(code: &[bool]) -> (r: Result<usize, InvalidCodeError>)
        ensures
            match r {
                Ok(n) => unary_code(n as nat) == code@,
                Err(e) => e == InvalidCodeError::UnaryCodeError && forall|n: nat| #[trigger]
                    unary_code(n) != code@,
            },
            forall|n: nat| #[trigger] unary_code(n) == code@ ==> r == Ok::<usize, InvalidCodeError>(
                n as usize,
            ),
    {
        let len = code.len();
        if len == 0 || code[len - 1] {
            proof {
                assert forall|n: nat| #[trigger] unary_code(n) != code@ by {
                    if unary_code(n) == code@ {
                        assert(code@[len - 1] == unary_code(n)[n as int]);
                    }
                }
            }
            return Err(InvalidCodeError::UnaryCodeError);
        }
        let mut i: usize = 0;
        while i < len - 1
            invariant
                i <= len - 1,
                len == code@.len(),
                forall|j: int| 0 <= j < i ==> #[trigger] code@[j],
            decreases len - 1 - i,
        {
            if !code[i] {
                proof {
                    assert forall|n: nat| #[trigger] unary_code(n) != code@ by {
                        if unary_code(n) == code@ {
                            assert(code@[i as int] == unary_code(n)[i as int]);
                        }
                    }
                }
                return Err(InvalidCodeError::UnaryCodeError);
            }
            i += 1;
        }
        proof {
            assert(unary_code((len - 1) as nat) =~= code@);
        }
        Ok(len - 1)
    }

    /// The count whose unary codeword is exactly `code`; the same as `decode_one`.
    pub fn decode(code: &[bool]) -> (r: Result<usize, InvalidCodeError>)
        ensures
            match r {
                Ok(n) => unary_code(n as nat) == code@,
                Err(e) => e == InvalidCodeError::UnaryCodeError && forall|n: nat| #[trigger]
                    unary_code(n) != code@,
            },
            forall|n: nat| #[trigger] unary_code(n) == code@ ==> r == Ok::<usize, InvalidCodeError>(
                n as usize,
            ),
    {
        UnaryDecoder::decode_one(code)
    }
}

} // verus!
