use vstd::prelude::*;

verus! {

/// A malformed codeword or stream, by codec.
#[derive(Debug, Clone, Copy, PartialEq, Eq, Structural)]
pub enum InvalidCodeError {
    UnaryCodeError,
    VBCodeError,
    GammaCodeError,
    DeltaCodeError,
}

/// A variable-byte group without exactly one continuation bit, on its last byte.
#[derive(Debug, Clone, Copy, PartialEq, Eq, Structural)]
pub struct InvalidVariableByteCode;

/// A decoded magnitude does not fit the target width (with one bit of margin).
#[derive(Debug, Clone, Copy, PartialEq, Eq, Structural)]
pub struct OverflowError;

/// A bit length that does not agree with the number of bytes given.
#[derive(Debug, Clone, Copy, PartialEq, Eq, Structural)]
pub struct BitVecLengthError;

/// A sentinel-framed stream whose last byte holds no 1-bit.
#[derive(Debug, Clone, Copy, PartialEq, Eq, Structural)]
pub struct NoTerminatingBitError;

impl InvalidCodeError {
    /// A human-readable description of the error.
    pub fn message(&self) -> (r: &'static str)
        ensures
            *self == InvalidCodeError::UnaryCodeError ==> r@ == "Invalid Unary Code Error."@,
            *self == InvalidCodeError::VBCodeError ==> r@ == "Invalid Variable Byte Code Error."@,
            *self == InvalidCodeError::GammaCodeError ==> r@ == "Invalid Elias Gamma Code Error."@,
            *self == InvalidCodeError::DeltaCodeError ==> r@ == "Invalid Elias Delta Code Error."@,
    {
        match self {
            InvalidCodeError::UnaryCodeError => "Invalid Unary Code Error.",
            InvalidCodeError::VBCodeError => "Invalid Variable Byte Code Error.",
            InvalidCodeError::GammaCodeError => "Invalid Elias Gamma Code Error.",
            InvalidCodeError::DeltaCodeError => "Invalid Elias Delta Code Error.",
        }
    }
}

} // verus!
