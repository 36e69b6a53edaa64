//! Unsigned variable-length integers.
//!
//! Every byte carries seven payload bits, least significant group first.
//! The high bit is set on the last byte of a number and clear on the others.
use vstd::arithmetic::power2::{lemma2_to64, lemma_pow2_adds, lemma_pow2_pos, pow2};
use vstd::prelude::*;

verus! {

/// The bytes that encode `n`.
pub open spec fn varint_encode(n: nat) -> Seq<u8>
    decreases n,
{
    if n < 128 {
        seq![(n + 128) as u8]
    } else {
        seq![(n % 128) as u8] + varint_encode(n / 128)
    }
}

/// The number at the front of `s` and how many bytes it takes, or `None`
/// when `s` ends before a byte with the high bit set, or when the number is
/// not written in the fewest bytes (a last byte of `0x80` after others).
pub open spec fn varint_decode(s: Seq<u8>) -> Option<(nat, nat)>
    decreases s.len(),
{
    if s.len() == 0 {
        None
    } else if s[0] >= 128 {
        Some(((s[0] - 128) as nat, 1nat))
    } else {
        match varint_decode(s.drop_first()) {
            Some((v, l)) => if v == 0 {
                None
            } else {
                Some(((s[0] + 128 * v) as nat, l + 1))
            },
            None => None,
        }
    }
}

/// Decoding the encoding of `n`, followed by anything, gives back `n` and the
/// length of the encoding.
pub proof fn lemma_varint_round_trip(n: nat, rest: Seq<u8>)
    ensures
        varint_decode(varint_encode(n) + rest) == Some((n, varint_encode(n).len())),
    decreases n,
{
    let s = varint_encode(n) + rest;
    if n < 128 {
        assert(s[0] == (n + 128) as u8);
    } else {
        lemma_varint_round_trip(n / 128, rest);
        assert(s.drop_first() =~= varint_encode(n / 128) + rest);
        assert(s[0] == (n % 128) as u8);
    }
}

/// The encoding of `n` takes at most `k` bytes exactly when `n < 2^(7k)`:
/// one byte below 128, and one more for every further seven bits.
pub proof fn lemma_varint_len(n: nat, k: nat)
    requires
        k >= 1,
    ensures
        varint_encode(n).len() >= 1,
        varint_encode(n).len() <= k <==> n < pow2(7 * k),
    decreases n,
{
    lemma2_to64();
    lemma_pow2_pos(7 * k);
    if k > 1 {
        lemma_pow2_adds(7, (7 * (k - 1)) as nat);
        assert(7 + 7 * (k - 1) == 7 * k) by (nonlinear_arith);
    } else {
        assert(7 * k == 7);
    }
    if n >= 128 {
        if k > 1 {
            lemma_varint_len(n / 128, (k - 1) as nat);
        } else {
            lemma_varint_len(n / 128, 1);
        }
    }
}

/// Encodings of numbers below 2^64 take at most ten bytes.
pub proof fn lemma_varint_u64_len(n: u64)
    ensures
        1 <= varint_encode(n as nat).len() <= 10,
{
    lemma_varint_len(n as nat, 10);
    lemma2_to64();
    vstd::arithmetic::power2::lemma_pow2_strictly_increases(64, 70);
}

} // verus!
