//! The unsigned integer widths that the codecs work over, and the conversions between
//! magnitudes and bit sequences.
use crate::error::OverflowError;
use crate::model::{bits_value, lemma_bits_value_bound, lemma_bits_value_push, offset_bits};
use vstd::arithmetic::power2::*;
use vstd::prelude::*;

verus! {

/// `2^127` and `2^128`, the bounds of the widest supported type.
pub proof fn lemma_pow2_wide()
    ensures
        pow2(127) == 0x8000_0000_0000_0000_0000_0000_0000_0000,
        pow2(128) == 0x1_0000_0000_0000_0000_0000_0000_0000_0000,
{
    lemma2_to64();
    lemma2_to64_rest();
    lemma_pow2_adds(64, 63);
    lemma_pow2_adds(64, 64);
    assert(pow2(127) == pow2(64) * pow2(63));
    assert(pow2(64) * pow2(63) == 0x8000_0000_0000_0000_0000_0000_0000_0000) by (nonlinear_arith)
        requires
            pow2(64) == 0x1_0000_0000_0000_0000,
            pow2(63) == 0x8000_0000_0000_0000,
    ;
}

/// An unsigned integer type of a fixed width (8, 16, 32, 64 or 128 bits).
pub trait Numeric: Sized + Copy {
    /// The width of the type in bits.
    spec fn spec_bits() -> nat;

    /// The magnitude that a value stands for.
    spec fn spec_value(self) -> nat;

    /// The width of the type in bits.
    fn bits() -> (r: u32)
        ensures
            r == Self::spec_bits(),
            8 <= r <= 128,
    ;

    /// The largest value of the type, widened.
    fn max_value() -> (r: u128)
        ensures
            r + 1 == pow2(Self::spec_bits()),
    ;

    /// The value, widened.
    fn to_u128(self) -> (r: u128)
        ensures
            r == self.spec_value(),
    ;

    /// The value of the type that stands for `v`.
    fn from_u128(v: u128) -> (r: Self)
        requires
            v < pow2(Self::spec_bits()),
        ensures
            r.spec_value() == v,
    ;

    /// The width is one of the supported ones.
    proof fn lemma_bits_range()
        ensures
            8 <= Self::spec_bits() <= 128,
    ;

    /// Every value lies below `2^bits`.
    proof fn lemma_value_range(self)
        ensures
            8 <= Self::spec_bits() <= 128,
            self.spec_value() < pow2(Self::spec_bits()),
    ;
}

impl Numeric for u8 {
    open spec fn spec_bits() -> nat {
        8
    }

    open spec fn spec_value(self) -> nat {
        self as nat
    }

    fn bits() -> (r: u32) {
        8
    }

    fn max_value() -> (r: u128) {
        proof {
            lemma2_to64();
        }
        0xff
    }

    fn to_u128(self) -> (r: u128) {
        self as u128
    }

    fn from_u128(v: u128) -> (r: u8) {
        proof {
            lemma2_to64();
        }
        v as u8
    }

    proof fn lemma_bits_range() {
    }

    proof fn lemma_value_range(self) {
        lemma2_to64();
    }
}

impl Numeric for u16 {
    open spec fn spec_bits() -> nat {
        16
    }

    open spec fn spec_value(self) -> nat {
        self as nat
    }

    fn bits() -> (r: u32) {
        16
    }

    fn max_value() -> (r: u128) {
        proof {
            lemma2_to64();
        }
        0xffff
    }

    fn to_u128(self) -> (r: u128) {
        self as u128
    }

    fn from_u128(v: u128) -> (r: u16) {
        proof {
            lemma2_to64();
        }
        v as u16
    }

    proof fn lemma_bits_range() {
    }

    proof fn lemma_value_range(self) {
        lemma2_to64();
    }
}

impl Numeric for u32 {
    open spec fn spec_bits() -> nat {
        32
    }

    open spec fn spec_value(self) -> nat {
        self as nat
    }

    fn bits() -> (r: u32) {
        32
    }

    fn max_value() -> (r: u128) {
        proof {
            lemma2_to64();
        }
        0xffff_ffff
    }

    fn to_u128(self) -> (r: u128) {
        self as u128
    }

    fn from_u128(v: u128) -> (r: u32) {
        proof {
            lemma2_to64();
        }
        v as u32
    }

    proof fn lemma_bits_range() {
    }

    proof fn lemma_value_range(self) {
        lemma2_to64();
    }
}

impl Numeric for u64 {
    open spec fn spec_bits() -> nat {
        64
    }

    open spec fn spec_value(self) -> nat {
        self as nat
    }

    fn bits() -> (r: u32) {
        64
    }

    fn max_value() -> (r: u128) {
        proof {
            lemma2_to64();
        }
        0xffff_ffff_ffff_ffff
    }

    fn to_u128(self) -> (r: u128) {
        self as u128
    }

    fn from_u128(v: u128) -> (r: u64) {
        proof {
            lemma2_to64();
        }
        v as u64
    }

    proof fn lemma_bits_range() {
    }

    proof fn lemma_value_range(self) {
        lemma2_to64();
    }
}

impl Numeric for u128 {
    open spec fn spec_bits() -> nat {
        128
    }

    open spec fn spec_value(self) -> nat {
        self as nat
    }

    fn bits() -> (r: u32) {
        128
    }

    fn max_value() -> (r: u128) {
        proof {
            lemma_pow2_wide();
        }
        0xffff_ffff_ffff_ffff_ffff_ffff_ffff_ffff
    }

    fn to_u128(self) -> (r: u128) {
        self
    }

    fn from_u128(v: u128) -> (r: u128) {
        v
    }

    proof fn lemma_bits_range() {
    }

    proof fn lemma_value_range(self) {
        lemma_pow2_wide();
    }
}

/// The magnitudes of a sequence of values.
pub open spec fn values<T: Numeric>(s: Seq<T>) -> Seq<nat> {
    s.map_values(|x: T| x.spec_value())
}

/// Reads `bits`, most significant first, as a magnitude of type `T`.
///
/// Fails with `OverflowError` when there are `T::bits()` bits or more: one bit of the
/// type's width is kept as margin.
pub fn bits_to_numeric<T: Numeric>(bits: &[bool]) -> (r: Result<T, OverflowError>)
    ensures
        match r {
            Ok(v) => bits@.len() + 1 <= T::spec_bits() && v.spec_value() == bits_value(bits@),
            Err(_) => bits@.len() + 1 > T::spec_bits(),
        },
{
    let width = T::bits();
    if bits.len() > (width - 1) as usize {
        return Err(OverflowError);
    }
    let mut result: u128 = 0;
    let mut i: usize = 0;
    while i < bits.len()
        invariant
            i <= bits@.len(),
            bits@.len() + 1 <= width,
            width <= 128,
            result == bits_value(bits@.take(i as int)),
        decreases bits@.len() - i,
    {
        proof {
            lemma_bits_value_bound(bits@.take(i as int));
            if i < 127 {
                lemma_pow2_strictly_increases(i as nat, 127);
            }
            lemma_pow2_wide();
            assert(bits@.take(i + 1) =~= bits@.take(i as int).push(bits@[i as int]));
            lemma_bits_value_push(bits@.take(i as int), bits@[i as int]);
        }
        result = 2 * result + if bits[i] {
            1
        } else {
            0
        };
        i += 1;
    }
    proof {
        assert(bits@.take(bits@.len() as int) =~= bits@);
        lemma_bits_value_bound(bits@);
        lemma_pow2_strictly_increases(bits@.len(), width as nat);
    }
    Ok(T::from_u128(result))
}

/// Appends the offset bits of `n` (its binary digits after the leading one) to `buffer`.
fn push_offset_bits(n: u128, buffer: &mut Vec<bool>)
    ensures
        final(buffer)@ == old(buffer)@ + offset_bits(n as nat),
    decreases n,
{
    if n > 1 {
        push_offset_bits(n / 2, buffer);
        buffer.push(n % 2 == 1);
        proof {
            assert(final(buffer)@ =~= old(buffer)@ + offset_bits(n as nat));
        }
    } else {
        proof {
            assert(final(buffer)@ =~= old(buffer)@ + offset_bits(n as nat));
        }
    }
}

/// Appends the offset bits of `num` (its binary digits after the leading one, most
/// significant first) to `buffer`. Zero and one have none.
pub fn write_offset_bits<T: Numeric>(num: &T, buffer: &mut Vec<bool>)
    ensures
        final(buffer)@ == old(buffer)@ + offset_bits(num.spec_value()),
{
    push_offset_bits(num.to_u128(), buffer);
}

/// Reads at most 32 bits, most significant first, as a `u32`.
pub fn bits_to_number(bits: &[bool]) -> (r: u32)
    requires
        bits@.len() <= 32,
    ensures
        r == bits_value(bits@),
{
    let mut result: u32 = 0;
    let mut i: usize = 0;
    while i < bits.len()
        invariant
            i <= bits@.len(),
            bits@.len() <= 32,
            result == bits_value(bits@.take(i as int)),
        decreases bits@.len() - i,
    {
        proof {
            lemma_bits_value_bound(bits@.take(i as int));
            if i < 31 {
                lemma_pow2_strictly_increases(i as nat, 31);
            }
            lemma2_to64();
            assert(bits@.take(i + 1) =~= bits@.take(i as int).push(bits@[i as int]));
            lemma_bits_value_push(bits@.take(i as int), bits@[i as int]);
        }
        result = 2 * result + if bits[i] {
            1
        } else {
            0
        };
        i += 1;
    }
    proof {
        assert(bits@.take(bits@.len() as int) =~= bits@);
    }
    result
}

} // verus!
