//! Variable-length integer codes (Unary, Elias Gamma, Elias Delta and Variable-Byte)
//! over a bit-addressable buffer, with sentinel-framed byte streams.
pub mod bitqueue;
pub mod bitvec;
pub mod code;
pub mod delta;
pub mod error;
pub mod gamma;
pub mod model;
pub mod num;
pub mod reader;
pub mod unary;
pub mod vb;
pub mod writer;

pub use bitqueue::BitQueue;
pub use bitvec::BitVec;
pub use code::{DecodeOne, Decoder, EncodeOne, Encoder};
pub use delta::{DeltaDecoder, DeltaEncoder};
pub use error::{
    BitVecLengthError, InvalidCodeError, InvalidVariableByteCode, NoTerminatingBitError,
    OverflowError,
};
pub use gamma::{GammaDecoder, GammaEncoder};
pub use num::{bits_to_number, bits_to_numeric, write_offset_bits, Numeric};
pub use reader::{trailing_one_pos, with_terminating_bit, BitReader};
pub use unary::{UnaryDecoder, UnaryEncoder};
pub use vb::{VBDecoder, VBEncoder};
pub use writer::BitWriter;
