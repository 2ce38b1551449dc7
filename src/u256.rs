//! Calls into `primitive_types` for the wide arithmetic: each function here is
//! trusted, and its contract states what the crate computes.
use vstd::prelude::*;
use vstd::arithmetic::power2::pow2;
use primitive_types::{U256, U512};
use crate::word::{Word, be_bytes, be_value, from_limbs, word_modulus, wrap};

verus! {

/// The number held by eight 64-bit limbs, least significant first.
pub open spec fn wide_value(x: [u64; 8]) -> nat {
    from_limbs(x[0], x[1], x[2], x[3]) + word_modulus() * from_limbs(x[4], x[5], x[6], x[7])
}

/// Relies on `U256::overflowing_add`: the sum modulo 2^256, and whether it wrapped.
#[verifier::external_body]
pub(crate) fn overflowing_add(a: Word, b: Word) -> (r: (Word, bool))
    ensures
        r.0.value() == (a.value() + b.value()) % word_modulus(),
        r.1 == (a.value() + b.value() >= word_modulus()),
{
    let (s, o) = U256(a.limbs).overflowing_add(U256(b.limbs));
    (Word { limbs: s.0 }, o)
}

/// Relies on `U256::overflowing_sub`: the difference modulo 2^256.
#[verifier::external_body]
pub(crate) fn overflowing_sub(a: Word, b: Word) -> (r: Word)
    ensures
        r.value() == wrap(a.value() - b.value()),
{
    let (d, _) = U256(a.limbs).overflowing_sub(U256(b.limbs));
    Word { limbs: d.0 }
}

/// Relies on `U256::overflowing_mul`: the product modulo 2^256.
#[verifier::external_body]
pub(crate) fn overflowing_mul(a: Word, b: Word) -> (r: Word)
    ensures
        r.value() == (a.value() * b.value()) % word_modulus(),
{
    let (p, _) = U256(a.limbs).overflowing_mul(U256(b.limbs));
    Word { limbs: p.0 }
}

/// Relies on `U256::div_mod`: quotient and remainder; it panics on a zero divisor.
#[verifier::external_body]
pub(crate) fn div_mod(a: Word, b: Word) -> (r: (Word, Word))
    requires
        b.value() != 0,
    ensures
        r.0.value() == a.value() / b.value(),
        r.1.value() == a.value() % b.value(),
{
    let (q, m) = U256(a.limbs).div_mod(U256(b.limbs));
    (Word { limbs: q.0 }, Word { limbs: m.0 })
}

/// Relies on `U256 << u32`: bits moved up, those past bit 255 dropped.
#[verifier::external_body]
pub(crate) fn shift_left(a: Word, s: u32) -> (r: Word)
    requires
        s < 256,
    ensures
        r.value() == (a.value() * pow2(s as nat)) % word_modulus(),
{
    Word { limbs: (U256(a.limbs) << s).0 }
}

/// Relies on `U256 >> u32`: bits moved down, the low ones dropped.
#[verifier::external_body]
pub(crate) fn shift_right(a: Word, s: u32) -> (r: Word)
    requires
        s < 256,
    ensures
        r.value() == a.value() / pow2(s as nat),
{
    Word { limbs: (U256(a.limbs) >> s).0 }
}

/// Relies on `U256::full_mul`: the whole 512-bit product.
#[verifier::external_body]
pub(crate) fn full_mul(a: Word, b: Word) -> (r: [u64; 8])
    ensures
        wide_value(r) == a.value() * b.value(),
{
    U256(a.limbs).full_mul(U256(b.limbs)).0
}

/// Relies on `U512 % U512`: the remainder, which is below the 256-bit divisor.
#[verifier::external_body]
pub(crate) fn wide_rem(x: [u64; 8], n: Word) -> (r: Word)
    requires
        n.value() != 0,
    ensures
        r.value() == wide_value(x) % n.value(),
{
    let m = (U512(x) % U512::from(U256(n.limbs))).0;
    Word { limbs: [m[0], m[1], m[2], m[3]] }
}

/// Relies on `U256::from_big_endian`: up to 32 bytes, most significant first;
/// it panics on more.
#[verifier::external_body]
pub(crate) fn from_big_endian(bytes: &[u8]) -> (r: Word)
    requires
        bytes@.len() <= 32,
    ensures
        r.value() == be_value(bytes@),
{
    Word { limbs: U256::from_big_endian(bytes).0 }
}

/// Relies on `U256::to_big_endian`: the 32 bytes of the word, most significant first.
#[verifier::external_body]
pub(crate) fn to_big_endian(a: Word) -> (r: [u8; 32])
    ensures
        r@ == be_bytes(a.value(), 32),
{
    let mut bytes = [0u8; 32];
    U256(a.limbs).to_big_endian(&mut bytes);
    bytes
}

} // verus!
