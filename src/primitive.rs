//! Conversion of the primitive integer types to and from their encoding.
use vstd::arithmetic::div_mod::lemma_mod_mod;
use vstd::arithmetic::power2::{lemma2_to64, lemma2_to64_rest, lemma_pow2_adds, lemma_pow2_pos, pow2};
use vstd::prelude::*;

use crate::codec::{decode_u128, encode_u128, lemma_pow2_128, DecodeError};
use crate::model::{decode, encode, truncate};

verus! {

/// Provides methods for converting to and from a variable length encoding.
///
/// Uses the high bit of each byte to indicate if the encoding continues:
/// the high bit is set if the encoding continues to the next byte.
pub trait VLInt: Sized {
    /// The number of bits of the type.
    spec fn bit_width() -> nat;

    /// Whether the type is read as two's complement.
    spec fn is_signed() -> bool;

    /// The integer as a mathematical value.
    spec fn value(&self) -> int;

    /// Gets the variable length encoding of this integer.
    ///
    /// A negative value has no encoding: shifting it right never reaches zero.
    fn vlint(self) -> (r: Vec<u8>)
        requires
            self.value() >= 0,
        ensures
            r@ == encode(self.value() as nat),
    ;

    /// Parses a variable length encoding into an integer.
    ///
    /// Reading stops at the first byte whose high bit is clear; bits of the
    /// value beyond the width of the type are dropped.
    fn from_vlint(bytes: &[u8]) -> (r: Result<Self, DecodeError>)
        ensures
            match r {
                Ok(v) => decode(bytes@) is Some && v.value() == truncate(
                    decode(bytes@)->0,
                    Self::bit_width(),
                    Self::is_signed(),
                ),
                Err(e) => decode(bytes@) is None && e == DecodeError::TruncatedInput,
            },
    ;
}

/// The low `w` bits of a value reduced modulo `2^128` are its own low `w` bits.
proof fn lemma_low_bits(d: nat, b: u128, w: nat)
    requires
        b as nat == d % pow2(128),
        w <= 128,
    ensures
        (b as nat) % pow2(w) == d % pow2(w),
{
    lemma_pow2_adds(w, (128 - w) as nat);
    lemma_pow2_pos(w);
    lemma_pow2_pos((128 - w) as nat);
    lemma_mod_mod(d as int, pow2(w) as int, pow2((128 - w) as nat) as int);
}

impl VLInt for u8 {
    open spec fn bit_width() -> nat {
        8
    }

    open spec fn is_signed() -> bool {
        false
    }

    open spec fn value(&self) -> int {
        *self as int
    }

    fn vlint(self) -> (r: Vec<u8>) {
        encode_u128(self as u128)
    }

    fn from_vlint(bytes: &[u8]) -> (r: Result<u8, DecodeError>) {
        match decode_u128(bytes) {
            Ok(b) => {
                proof {
                    lemma_low_bits(decode(bytes@)->0, b, 8);
                    lemma2_to64();
                    assert((b as u8) as u128 == b % 0x100) by (bit_vector);
                }
                Ok(#[verifier::truncate] (b as u8))
            },
            Err(e) => Err(e),
        }
    }
}

impl VLInt for u16 {
    open spec fn bit_width() -> nat {
        16
    }

    open spec fn is_signed() -> bool {
        false
    }

    open spec fn value(&self) -> int {
        *self as int
    }

    fn vlint(self) -> (r: Vec<u8>) {
        encode_u128(self as u128)
    }

    fn from_vlint(bytes: &[u8]) -> (r: Result<u16, DecodeError>) {
        match decode_u128(bytes) {
            Ok(b) => {
                proof {
                    lemma_low_bits(decode(bytes@)->0, b, 16);
                    lemma2_to64();
                    assert((b as u16) as u128 == b % 0x1_0000) by (bit_vector);
                }
                Ok(#[verifier::truncate] (b as u16))
            },
            Err(e) => Err(e),
        }
    }
}

impl VLInt for u32 {
    open spec fn bit_width() -> nat {
        32
    }

    open spec fn is_signed() -> bool {
        false
    }

    open spec fn value(&self) -> int {
        *self as int
    }

    fn vlint(self) -> (r: Vec<u8>) {
        encode_u128(self as u128)
    }

    fn from_vlint(bytes: &[u8]) -> (r: Result<u32, DecodeError>) {
        match decode_u128(bytes) {
            Ok(b) => {
                proof {
                    lemma_low_bits(decode(bytes@)->0, b, 32);
                    lemma2_to64();
                    assert((b as u32) as u128 == b % 0x1_0000_0000) by (bit_vector);
                }
                Ok(#[verifier::truncate] (b as u32))
            },
            Err(e) => Err(e),
        }
    }
}

impl VLInt for u64 {
    open spec fn bit_width() -> nat {
        64
    }

    open spec fn is_signed() -> bool {
        false
    }

    open spec fn value(&self) -> int {
        *self as int
    }

    fn vlint(self) -> (r: Vec<u8>) {
        encode_u128(self as u128)
    }

    fn from_vlint(bytes: &[u8]) -> (r: Result<u64, DecodeError>) {
        match decode_u128(bytes) {
            Ok(b) => {
                proof {
                    lemma_low_bits(decode(bytes@)->0, b, 64);
                    lemma2_to64();
                    lemma2_to64_rest();
                    assert((b as u64) as u128 == b % 0x1_0000_0000_0000_0000) by (bit_vector);
                }
                Ok(#[verifier::truncate] (b as u64))
            },
            Err(e) => Err(e),
        }
    }
}

impl VLInt for u128 {
    open spec fn bit_width() -> nat {
        128
    }

    open spec fn is_signed() -> bool {
        false
    }

    open spec fn value(&self) -> int {
        *self as int
    }

    fn vlint(self) -> (r: Vec<u8>) {
        encode_u128(self as u128)
    }

    fn from_vlint(bytes: &[u8]) -> (r: Result<u128, DecodeError>) {
        match decode_u128(bytes) {
            Ok(b) => {
                proof {
                    lemma_low_bits(decode(bytes@)->0, b, 128);
                    lemma2_to64();
                    lemma2_to64_rest();
                    lemma_pow2_128();
                    lemma_pow2_adds(63, 64);
                }
                Ok(b)
            },
            Err(e) => Err(e),
        }
    }
}

impl VLInt for i8 {
    open spec fn bit_width() -> nat {
        8
    }

    open spec fn is_signed() -> bool {
        true
    }

    open spec fn value(&self) -> int {
        *self as int
    }

    fn vlint(self) -> (r: Vec<u8>) {
        encode_u128(self as u128)
    }

    fn from_vlint(bytes: &[u8]) -> (r: Result<i8, DecodeError>) {
        match decode_u128(bytes) {
            Ok(b) => {
                proof {
                    lemma_low_bits(decode(bytes@)->0, b, 8);
                    lemma2_to64();
                    assert((b as i8) == if b % 0x100 >= 0x80 {
                        (b % 0x100) - 0x100
                    } else {
                        (b % 0x100) as int
                    }) by (bit_vector);
                }
                Ok(#[verifier::truncate] (b as i8))
            },
            Err(e) => Err(e),
        }
    }
}

impl VLInt for i16 {
    open spec fn bit_width() -> nat {
        16
    }

    open spec fn is_signed() -> bool {
        true
    }

    open spec fn value(&self) -> int {
        *self as int
    }

    fn vlint(self) -> (r: Vec<u8>) {
        encode_u128(self as u128)
    }

    fn from_vlint(bytes: &[u8]) -> (r: Result<i16, DecodeError>) {
        match decode_u128(bytes) {
            Ok(b) => {
                proof {
                    lemma_low_bits(decode(bytes@)->0, b, 16);
                    lemma2_to64();
                    assert((b as i16) == if b % 0x1_0000 >= 0x8000 {
                        (b % 0x1_0000) - 0x1_0000
                    } else {
                        (b % 0x1_0000) as int
                    }) by (bit_vector);
                }
                Ok(#[verifier::truncate] (b as i16))
            },
            Err(e) => Err(e),
        }
    }
}

impl VLInt for i32 {
    open spec fn bit_width() -> nat {
        32
    }

    open spec fn is_signed() -> bool {
        true
    }

    open spec fn value(&self) -> int {
        *self as int
    }

    fn vlint(self) -> (r: Vec<u8>) {
        encode_u128(self as u128)
    }

    fn from_vlint(bytes: &[u8]) -> (r: Result<i32, DecodeError>) {
        match decode_u128(bytes) {
            Ok(b) => {
                proof {
                    lemma_low_bits(decode(bytes@)->0, b, 32);
                    lemma2_to64();
                    assert((b as i32) == if b % 0x1_0000_0000 >= 0x8000_0000 {
                        (b % 0x1_0000_0000) - 0x1_0000_0000
                    } else {
                        (b % 0x1_0000_0000) as int
                    }) by (bit_vector);
                }
                Ok(#[verifier::truncate] (b as i32))
            },
            Err(e) => Err(e),
        }
    }
}

impl VLInt for i64 {
    open spec fn bit_width() -> nat {
        64
    }

    open spec fn is_signed() -> bool {
        true
    }

    open spec fn value(&self) -> int {
        *self as int
    }

    fn vlint(self) -> (r: Vec<u8>) {
        encode_u128(self as u128)
    }

    fn from_vlint(bytes: &[u8]) -> (r: Result<i64, DecodeError>) {
        match decode_u128(bytes) {
            Ok(b) => {
                proof {
                    lemma_low_bits(decode(bytes@)->0, b, 64);
                    lemma2_to64();
                    lemma2_to64_rest();
                    assert((b as i64) == if b % 0x1_0000_0000_0000_0000 >= 0x8000_0000_0000_0000 {
                        (b % 0x1_0000_0000_0000_0000) - 0x1_0000_0000_0000_0000
                    } else {
                        (b % 0x1_0000_0000_0000_0000) as int
                    }) by (bit_vector);
                }
                Ok(#[verifier::truncate] (b as i64))
            },
            Err(e) => Err(e),
        }
    }
}

impl VLInt for i128 {
    open spec fn bit_width() -> nat {
        128
    }

    open spec fn is_signed() -> bool {
        true
    }

    open spec fn value(&self) -> int {
        *self as int
    }

    fn vlint(self) -> (r: Vec<u8>) {
        encode_u128(self as u128)
    }

    fn from_vlint(bytes: &[u8]) -> (r: Result<i128, DecodeError>) {
        match decode_u128(bytes) {
            Ok(b) => {
                proof {
                    lemma_low_bits(decode(bytes@)->0, b, 128);
                    lemma2_to64();
                    lemma2_to64_rest();
                    lemma_pow2_128();
                    lemma_pow2_adds(63, 64);
                    assert((b as i128) == if b >= 0x8000_0000_0000_0000_0000_0000_0000_0000 {
                        b - 0x1_0000_0000_0000_0000_0000_0000_0000_0000
                    } else {
                        b as int
                    }) by (bit_vector);
                }
                Ok(#[verifier::truncate] (b as i128))
            },
            Err(e) => Err(e),
        }
    }
}

impl VLInt for usize {
    open spec fn bit_width() -> nat {
        usize::BITS as nat
    }

    open spec fn is_signed() -> bool {
        false
    }

    open spec fn value(&self) -> int {
        *self as int
    }

    fn vlint(self) -> (r: Vec<u8>) {
        encode_u128(self as u128)
    }

    fn from_vlint(bytes: &[u8]) -> (r: Result<usize, DecodeError>) {
        if usize::BITS == 32 {
            match u32::from_vlint(bytes) {
                Ok(v) => Ok(v as usize),
                Err(e) => Err(e),
            }
        } else {
            match u64::from_vlint(bytes) {
                Ok(v) => Ok(v as usize),
                Err(e) => Err(e),
            }
        }
    }
}

impl VLInt for isize {
    open spec fn bit_width() -> nat {
        usize::BITS as nat
    }

    open spec fn is_signed() -> bool {
        true
    }

    open spec fn value(&self) -> int {
        *self as int
    }

    fn vlint(self) -> (r: Vec<u8>) {
        encode_u128(self as u128)
    }

    fn from_vlint(bytes: &[u8]) -> (r: Result<isize, DecodeError>) {
        if usize::BITS == 32 {
            match i32::from_vlint(bytes) {
                Ok(v) => Ok(v as isize),
                Err(e) => Err(e),
            }
        } else {
            match i64::from_vlint(bytes) {
                Ok(v) => Ok(v as isize),
                Err(e) => Err(e),
            }
        }
    }
}

} // verus!
