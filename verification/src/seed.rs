//! Stretching a 128-bit seed to the 32 bytes that key the generator.
//!
//! The seed's big-endian bytes fill the key from the front; its little-endian
//! bytes fill it from the back, the first of them going to the last place. No
//! half of the key is left at zero.

use vstd::prelude::*;
use vstd::arithmetic::div_mod::lemma_div_denominator;
use vstd::arithmetic::power::{pow, lemma_pow0, lemma_pow1, lemma_pow_adds, lemma_pow_positive};

verus! {

/// The byte of `value` that weighs `256^k`.
pub open spec fn byte_at(value: u128, k: nat) -> u8 {
    ((value as int / pow(256, k)) % 256) as u8
}

/// The 16 bytes of `value`, the most significant first.
pub open spec fn be_bytes(value: u128) -> Seq<u8> {
    Seq::new(16, |i: int| byte_at(value, (15 - i) as nat))
}

/// The 16 bytes of `value`, the least significant first.
pub open spec fn le_bytes(value: u128) -> Seq<u8> {
    Seq::new(16, |i: int| byte_at(value, i as nat))
}

/// The key made of `value`: its big-endian bytes from the front, its
/// little-endian bytes from the back.
pub open spec fn seed_bytes(value: u128) -> Seq<u8> {
    Seq::new(
        32,
        |i: int|
            if i < 16 {
                be_bytes(value)[i]
            } else {
                le_bytes(value)[31 - i]
            },
    )
}

/// Both halves of the key read alike: filled from the back, the
/// little-endian bytes come to stand in big-endian order.
pub proof fn lemma_seed_halves_agree(value: u128)
    ensures
        seed_bytes(value).len() == 32,
        forall|i: int| 0 <= i < 16 ==> seed_bytes(value)[i] == #[trigger] seed_bytes(value)[16 + i],
{
}

proof fn lemma_next_byte(value: u128, k: nat)
    ensures
        pow(256, k) > 0,
        (value as int / pow(256, k)) / 256 == value as int / pow(256, k + 1),
{
    lemma_pow_positive(256, k);
    lemma_pow1(256);
    lemma_pow_adds(256, k, 1);
    lemma_div_denominator(value as int, pow(256, k), 256);
}

/// Stretches `value` to a key of 32 bytes.
pub fn expand_seed(value: u128) -> (seed: [u8; 32])
    ensures
        seed@ == seed_bytes(value),
{
    let mut seed = [0u8; 32];
    let mut rest: u128 = value;
    let mut k: usize = 0;
    proof {
        lemma_pow0(256);
    }
    while k < 16
        invariant
            k <= 16,
            rest as int == value as int / pow(256, k as nat),
            forall|j: int| 0 <= j < k ==> #[trigger] seed@[15 - j] == byte_at(value, j as nat),
            forall|j: int| 0 <= j < k ==> #[trigger] seed@[31 - j] == byte_at(value, j as nat),
        decreases 16 - k,
    {
        let byte: u8 = (rest % 256) as u8;
        seed[15 - k] = byte;
        seed[31 - k] = byte;
        proof {
            lemma_next_byte(value, k as nat);
        }
        rest = rest / 256;
        k += 1;
    }
    assert forall|i: int| 0 <= i < 32 implies seed@[i] == seed_bytes(value)[i] by {
        if i < 16 {
            assert(seed@[15 - (15 - i)] == byte_at(value, (15 - i) as nat));
        } else {
            assert(seed@[31 - (31 - i)] == byte_at(value, (31 - i) as nat));
        }
    }
    assert(seed@ =~= seed_bytes(value));
    seed
}

} // verus!
