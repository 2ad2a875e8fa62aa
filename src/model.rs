//! The mathematical model of the encoding.
use vstd::arithmetic::div_mod::*;
use vstd::arithmetic::power2::*;
use vstd::prelude::*;

verus! {

/// The bytes that encode `n`: its seven-bit groups, least significant first,
/// with bit 7 set on every byte but the last.
pub open spec fn encode(n: nat) -> Seq<u8>
    decreases n,
{
    if n < 128 {
        seq![n as u8]
    } else {
        seq![(n % 128 + 128) as u8] + encode(n / 128)
    }
}

/// The value that `bytes` encode, read up to and including the first byte
/// whose bit 7 is clear; `None` when no byte has bit 7 clear.
pub open spec fn decode(bytes: Seq<u8>) -> Option<nat>
    decreases bytes.len(),
{
    if bytes.len() == 0 {
        None
    } else if bytes[0] < 128 {
        Some(bytes[0] as nat)
    } else {
        match decode(bytes.drop_first()) {
            Some(rest) => Some((bytes[0] - 128) as nat + 128 * rest),
            None => None,
        }
    }
}

/// `n` cut down to its low `width` bits, read as two's complement when
/// `signed`.
pub open spec fn truncate(n: nat, width: nat, signed: bool) -> int {
    let low = n % pow2(width);
    if signed && low >= pow2((width - 1) as nat) {
        low - pow2(width)
    } else {
        low as int
    }
}

/// The sum of the low seven bits of the first `i` bytes of `s`, the bits of
/// byte `j` weighted by `2^(7 * j)`.
pub open spec fn low_groups(s: Seq<u8>, i: nat) -> nat
    decreases i,
{
    if i == 0 {
        0
    } else {
        low_groups(s, (i - 1) as nat) + (s[i - 1] % 128) as nat * pow2(7 * (i - 1) as nat)
    }
}

/// Splits off the first group of a prefix.
pub proof fn lemma_low_groups_first(s: Seq<u8>, n: nat)
    requires
        n + 1 <= s.len(),
    ensures
        low_groups(s, n + 1) == (s[0] % 128) as nat + 128 * low_groups(s.drop_first(), n),
    decreases n,
{
    reveal_with_fuel(low_groups, 2);
    lemma2_to64();
    if n > 0 {
        lemma_low_groups_first(s, (n - 1) as nat);
        let t = s.drop_first();
        let g = (s[n as int] % 128) as nat;
        assert(t[n - 1] == s[n as int]);
        lemma_pow2_adds(7 * (n - 1) as nat, 7);
        assert(7 * (n - 1) as nat + 7 == 7 * n);
        let p = pow2(7 * (n - 1) as nat);
        assert(pow2(7 * n) == p * 128);
        assert(low_groups(s, n + 1) == low_groups(s, n) + g * pow2(7 * n));
        assert(low_groups(t, n) == low_groups(t, (n - 1) as nat) + g * p);
        assert(128 * (low_groups(t, (n - 1) as nat) + g * p) == 128 * low_groups(t, (n - 1) as nat)
            + g * (p * 128)) by (nonlinear_arith);
        assert(low_groups(s, n) == (s[0] % 128) as nat + 128 * low_groups(t, (n - 1) as nat));
    } else {
        let g0 = (s[0] % 128) as nat;
        assert(low_groups(s, 1) == low_groups(s, 0) + g0 * pow2(0));
        assert(g0 * pow2(0) == g0);
        assert(low_groups(s, 1) == (s[0] % 128) as nat);
    }
}

/// Where the first byte with bit 7 clear stands at `k`, `decode` reads the
/// groups of bytes `0..=k`.
pub proof fn lemma_decode_stops_at(s: Seq<u8>, k: nat)
    requires
        k < s.len(),
        forall|j: int| 0 <= j < k ==> s[j] >= 128,
        s[k as int] < 128,
    ensures
        decode(s) == Some(low_groups(s, k + 1)),
    decreases k,
{
    lemma_low_groups_first(s, k);
    if k == 0 {
        assert(low_groups(s.drop_first(), 0) == 0);
    } else {
        let t = s.drop_first();
        assert forall|j: int| 0 <= j < k - 1 implies t[j] >= 128 by {
            assert(t[j] == s[j + 1]);
        }
        lemma_decode_stops_at(t, (k - 1) as nat);
    }
}

/// Without a byte whose bit 7 is clear, `decode` gives nothing.
pub proof fn lemma_decode_unterminated(s: Seq<u8>)
    requires
        forall|j: int| 0 <= j < s.len() ==> s[j] >= 128,
    ensures
        decode(s) is None,
    decreases s.len(),
{
    if s.len() > 0 {
        let t = s.drop_first();
        assert forall|j: int| 0 <= j < t.len() implies t[j] >= 128 by {
            assert(t[j] == s[j + 1]);
        }
        lemma_decode_unterminated(t);
    }
}

/// Groups at bit 128 and above vanish modulo `2^128`.
pub proof fn lemma_high_group_vanishes(low: nat, g: nat, e: nat)
    requires
        e >= 128,
    ensures
        (low + g * pow2(e)) % pow2(128) == low % pow2(128),
{
    lemma_pow2_adds(128, (e - 128) as nat);
    lemma_pow2_pos(128);
    let m = pow2(128) as int;
    let q = (g * pow2((e - 128) as nat)) as int;
    assert(g * pow2(e) == m * q) by (nonlinear_arith)
        requires
            pow2(e) == m * pow2((e - 128) as nat),
            q == g * pow2((e - 128) as nat),
    ;
    lemma_mod_multiples_vanish(q, low as int, m);
}

/// Decoding the encoding of `n` gives back `n`; and where `n` fits an integer
/// of `width` bits (below `2^(width - 1)` when signed), cutting it down to
/// that width leaves it unchanged.
pub proof fn lemma_round_trip(n: nat, width: nat, signed: bool)
    requires
        width >= 1,
        n < (if signed {
            pow2((width - 1) as nat)
        } else {
            pow2(width)
        }),
    ensures
        decode(encode(n)) == Some(n),
        truncate(n, width, signed) == n,
{
    lemma_decode_encode(n);
    lemma_pow2_strictly_increases((width - 1) as nat, width);
    lemma_small_mod(n, pow2(width));
}

/// Decoding the encoding of `n` gives back `n`.
pub proof fn lemma_decode_encode(n: nat)
    ensures
        decode(encode(n)) == Some(n),
    decreases n,
{
    if n >= 128 {
        let head = seq![(n % 128 + 128) as u8];
        assert((head + encode(n / 128)).drop_first() =~= encode(n / 128));
        lemma_decode_encode(n / 128);
    }
}

/// The encoding of `n` is as short as it can be: it has at least one byte,
/// its seven-bit groups hold all of `n`, and one group fewer would not.
pub proof fn lemma_encode_len(n: nat)
    ensures
        encode(n).len() >= 1,
        n < pow2(7 * encode(n).len()),
        encode(n).len() == 1 || pow2((7 * (encode(n).len() - 1)) as nat) <= n,
    decreases n,
{
    lemma2_to64();
    if n >= 128 {
        let q = n / 128;
        lemma_encode_len(q);
        let k = encode(q).len();
        assert(encode(n).len() == k + 1);
        lemma_pow2_adds(7 * k, 7);
        let p = pow2(7 * k);
        assert(n < 128 * p) by (nonlinear_arith)
            requires
                q < p,
                q == n / 128,
        ;
        if k > 1 {
            lemma_pow2_adds((7 * (k - 1)) as nat, 7);
            assert(7 * (k - 1) + 7 == 7 * k);
            let lo = pow2((7 * (k - 1)) as nat);
            assert(lo * 128 <= n) by (nonlinear_arith)
                requires
                    lo <= q,
                    q == n / 128,
            ;
        }
    }
}

/// Every byte of the encoding of `n` but the last has bit 7 set; the last
/// has it clear.
pub proof fn lemma_continuation_bits(n: nat)
    ensures
        forall|i: int| 0 <= i < encode(n).len() - 1 ==> encode(n)[i] >= 128,
        encode(n)[encode(n).len() - 1] < 128,
    decreases n,
{
    if n >= 128 {
        let rest = encode(n / 128);
        lemma_continuation_bits(n / 128);
        assert forall|i: int| 0 <= i < encode(n).len() - 1 implies encode(n)[i] >= 128 by {
            if i > 0 {
                assert(encode(n)[i] == rest[i - 1]);
            }
        }
        assert(encode(n)[encode(n).len() - 1] == rest[rest.len() - 1]);
    }
}

} // verus!
