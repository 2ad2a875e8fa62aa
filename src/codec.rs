//! The encoder and decoder shared by every integer width.
use vstd::prelude::*;

use crate::model::{
    decode, encode, lemma_decode_stops_at, lemma_decode_unterminated, lemma_high_group_vanishes,
    low_groups,
};
use vstd::arithmetic::div_mod::lemma_add_mod_noop;
use vstd::arithmetic::power2::{lemma2_to64, lemma_pow2_adds, lemma_pow2_strictly_increases, pow2};

verus! {

/// Why a byte sequence could not be decoded.
#[derive(Debug, Clone, Copy, PartialEq, Eq)]
pub enum DecodeError {
    /// The bytes ran out before a byte with bit 7 clear.
    TruncatedInput,
}

/// `2^128`, one more than the largest `u128`.
pub proof fn lemma_pow2_128()
    ensures
        pow2(128) == 0x1_0000_0000_0000_0000_0000_0000_0000_0000,
{
    lemma2_to64();
    lemma_pow2_adds(64, 64);
}

/// Encodes `v` as seven-bit groups, least significant first.
pub fn encode_u128(v: u128) -> (r: Vec<u8>)
    ensures
        r@ == encode(v as nat),
{
    let mut res: Vec<u8> = Vec::new();
    let mut rest: u128 = v;
    loop
        invariant_except_break
            res@ + encode(rest as nat) == encode(v as nat),
        ensures
            res@ == encode(v as nat),
        decreases rest,
    {
        let old_rest: Ghost<u128> = Ghost(rest);
        assert(rest & 0x7f == rest % 128 && rest & 0x7f < 128) by (bit_vector);
        assert(rest >> 7 == rest / 128) by (bit_vector);
        let chunk: u8 = (rest & 0x7f) as u8;
        rest = rest >> 7;
        let cont: u8 = if rest > 0 {
            1
        } else {
            0
        };
        let byte: u8 = cont << 7 | chunk;
        assert(byte == chunk + 128 * cont) by (bit_vector)
            requires
                chunk < 128,
                cont < 2,
                byte == cont << 7 | chunk,
        ;
        proof {
            let o = old_rest@ as nat;
            if o < 128 {
                assert(encode(o) == seq![o as u8]);
                assert(res@.push(byte) =~= res@ + encode(o));
            } else {
                assert(encode(o) == seq![(o % 128 + 128) as u8] + encode(o / 128));
                assert(res@.push(byte) + encode(rest as nat) =~= res@ + encode(o));
            }
        }
        res.push(byte);
        if rest == 0 {
            break;
        }
    }
    res
}

/// Decodes the bytes up to the first one with bit 7 clear, keeping the low
/// 128 bits of the value.
pub fn decode_u128(bytes: &[u8]) -> (r: Result<u128, DecodeError>)
    ensures
        match r {
            Ok(v) => decode(bytes@) is Some && v as nat == decode(bytes@)->0 % pow2(128),
            Err(e) => decode(bytes@) is None && e == DecodeError::TruncatedInput,
        },
{
    let mut res: u128 = 0;
    let mut weight: Option<u128> = Some(1);
    let mut i: usize = 0;
    proof {
        lemma_pow2_128();
        lemma2_to64();
    }
    while i < bytes.len()
        invariant
            i <= bytes@.len(),
            pow2(128) == 0x1_0000_0000_0000_0000_0000_0000_0000_0000,
            pow2(7) == 128,
            forall|j: int| 0 <= j < i ==> bytes@[j] >= 128,
            res as nat == low_groups(bytes@, i as nat) % pow2(128),
            match weight {
                Some(w) => w as nat == pow2(7 * i as nat) && 7 * i < 128,
                None => 7 * i >= 128,
            },
        decreases bytes.len() - i,
    {
        let byte: u8 = bytes[i];
        assert(byte & 0x7f == byte % 128) by (bit_vector);
        let group: u128 = (byte & 0x7f) as u128;
        let ghost low = low_groups(bytes@, i as nat);
        let ghost next = low_groups(bytes@, (i + 1) as nat);
        assert(next == low + group * pow2(7 * i as nat));
        proof {
            lemma_pow2_adds(7 * i as nat, 7);
        }
        match weight {
            Some(w) => {
                let term: u128 = group.wrapping_mul(w);
                res = res.wrapping_add(term);
                proof {
                    lemma_add_mod_noop(low as int, (group * w) as int, pow2(128) as int);
                }
                weight = w.checked_mul(128);
                proof {
                    if 7 * i + 7 < 128 {
                        lemma_pow2_strictly_increases((7 * i + 7) as nat, 128);
                    } else if 7 * i + 7 > 128 {
                        lemma_pow2_strictly_increases(128, (7 * i + 7) as nat);
                    }
                }
            },
            None => {
                proof {
                    lemma_high_group_vanishes(low, group as nat, 7 * i as nat);
                }
            },
        }
        if byte <= 127 {
            proof {
                lemma_decode_stops_at(bytes@, i as nat);
            }
            return Ok(res);
        }
        i = i + 1;
    }
    proof {
        lemma_decode_unterminated(bytes@);
    }
    Err(DecodeError::TruncatedInput)
}

} // verus!
