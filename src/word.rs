//! The 256-bit machine word, held as four little-endian 64-bit limbs, and its
//! meaning as a natural number below 2^256.
use vstd::prelude::*;
use vstd::arithmetic::div_mod::lemma_fundamental_div_mod_converse;
use vstd::arithmetic::power2::{lemma2_to64, lemma_pow2_adds, lemma_pow2_unfold, pow2};

verus! {

/// 2^64, the weight of one limb.
pub open spec fn limb_base() -> nat {
    0x1_0000_0000_0000_0000nat
}

/// 2^256: every word is below this, and arithmetic wraps around it.
pub open spec fn word_modulus() -> nat {
    0x1_0000_0000_0000_0000_0000_0000_0000_0000_0000_0000_0000_0000_0000_0000_0000_0000nat
}

/// 2^255: words at or above this are negative in two's complement.
pub open spec fn sign_bound() -> nat {
    0x8000_0000_0000_0000_0000_0000_0000_0000_0000_0000_0000_0000_0000_0000_0000_0000nat
}

/// The number whose 64-bit limbs, least significant first, are `l0 .. l3`.
pub open spec fn from_limbs(l0: u64, l1: u64, l2: u64, l3: u64) -> nat {
    (l0 + limb_base() * (l1 + limb_base() * (l2 + limb_base() * l3))) as nat
}

/// Limb `k` (counted from the least significant) of the number `n`.
pub open spec fn limb(n: nat, k: nat) -> u64
    decreases k,
{
    if k == 0 {
        (n % limb_base()) as u64
    } else {
        limb(n / limb_base(), (k - 1) as nat)
    }
}

/// A 256-bit word.
#[derive(Clone, Copy, Debug, PartialEq, Eq)]
pub struct Word {
    /// The limbs, least significant first.
    pub limbs: [u64; 4],
}

impl Word {
    /// The number this word stands for.
    pub open spec fn value(self) -> nat {
        from_limbs(self.limbs[0], self.limbs[1], self.limbs[2], self.limbs[3])
    }

    pub fn zero() -> (r: Word)
        ensures
            r.value() == 0,
    {
        Word { limbs: [0, 0, 0, 0] }
    }

    pub fn one() -> (r: Word)
        ensures
            r.value() == 1,
    {
        Word { limbs: [1, 0, 0, 0] }
    }

    /// The largest word, 2^256 - 1.
    pub fn max_value() -> (r: Word)
        ensures
            r.value() == word_modulus() - 1,
    {
        Word { limbs: [u64::MAX, u64::MAX, u64::MAX, u64::MAX] }
    }

    pub fn from_u64(x: u64) -> (r: Word)
        ensures
            r.value() == x,
    {
        Word { limbs: [x, 0, 0, 0] }
    }

    pub fn from_limbs(limbs: [u64; 4]) -> (r: Word)
        ensures
            r.limbs == limbs,
    {
        Word { limbs }
    }

    pub fn is_zero(&self) -> (r: bool)
        ensures
            r == (self.value() == 0),
    {
        proof {
            lemma_value_limbs(*self);
        }
        self.limbs[0] == 0 && self.limbs[1] == 0 && self.limbs[2] == 0 && self.limbs[3] == 0
    }

    /// The word as a `u64`, when it is below 2^64.
    pub fn to_u64(&self) -> (r: Option<u64>)
        ensures
            self.value() < limb_base() ==> r == Some(self.value() as u64),
            self.value() >= limb_base() ==> r is None,
    {
        proof {
            lemma_value_limbs(*self);
        }
        if self.limbs[1] == 0 && self.limbs[2] == 0 && self.limbs[3] == 0 {
            Some(self.limbs[0])
        } else {
            None
        }
    }
}

/// The two's complement reading of a number below 2^256.
pub open spec fn to_signed(n: nat) -> int {
    if n < sign_bound() {
        n as int
    } else {
        n - word_modulus()
    }
}

/// The number that the bytes `s` spell out, most significant first.
pub open spec fn be_value(s: Seq<u8>) -> nat
    decreases s.len(),
{
    if s.len() == 0 {
        0
    } else {
        be_value(s.drop_last()) * 256 + s.last() as nat
    }
}

/// The last `len` bytes of `n` written out most significant first.
pub open spec fn be_bytes(n: nat, len: nat) -> Seq<u8>
    decreases len,
{
    if len == 0 {
        Seq::empty()
    } else {
        be_bytes(n / 256, (len - 1) as nat).push((n % 256) as u8)
    }
}

/// A number taken modulo 2^256, the way every result is stored.
pub open spec fn wrap(x: int) -> nat {
    (x % (word_modulus() as int)) as nat
}

/// How the value of a word is laid out over its limbs.
pub proof fn lemma_value_limbs(w: Word)
    ensures
        w.value() < word_modulus(),
        w.value() % limb_base() == w.limbs[0],
        (w.value() / limb_base()) % limb_base() == w.limbs[1],
        (w.value() / limb_base() / limb_base()) % limb_base() == w.limbs[2],
        w.value() / limb_base() / limb_base() / limb_base() == w.limbs[3],
        limb(w.value(), 0) == w.limbs[0],
        limb(w.value(), 1) == w.limbs[1],
        limb(w.value(), 2) == w.limbs[2],
        limb(w.value(), 3) == w.limbs[3],
        w.value() == 0 <==> (w.limbs[0] == 0 && w.limbs[1] == 0 && w.limbs[2] == 0 && w.limbs[3] == 0),
        w.value() < limb_base() <==> (w.limbs[1] == 0 && w.limbs[2] == 0 && w.limbs[3] == 0),
{
    let b = limb_base() as int;
    let l0 = w.limbs[0] as int;
    let l1 = w.limbs[1] as int;
    let l2 = w.limbs[2] as int;
    let l3 = w.limbs[3] as int;
    let h2 = l2 + b * l3;
    let h1 = l1 + b * h2;
    let v = l0 + b * h1;
    assert(h2 < b * b);
    assert(h1 < b * b * b);
    assert(v == w.value());
    lemma_fundamental_div_mod_converse(v, b, h1, l0);
    lemma_fundamental_div_mod_converse(h1, b, h2, l1);
    lemma_fundamental_div_mod_converse(h2, b, l3, l2);
    assert(l3 / b == 0 && l3 % b == l3) by {
        lemma_fundamental_div_mod_converse(l3, b, 0, l3);
    }
    reveal_with_fuel(limb, 4);
}

/// The word bounds as powers of two.
pub proof fn lemma_pow2_word()
    ensures
        pow2(64) == limb_base(),
        pow2(255) == sign_bound(),
        pow2(256) == word_modulus(),
{
    lemma2_to64();
    lemma_pow2_adds(64, 64);
    assert(pow2(128) == 0x1_0000_0000_0000_0000_0000_0000_0000_0000nat) by (nonlinear_arith)
        requires
            pow2(128) == pow2(64) * pow2(64),
            pow2(64) == 0x1_0000_0000_0000_0000nat,
    ;
    lemma_pow2_adds(128, 128);
    assert(pow2(256) == word_modulus()) by (nonlinear_arith)
        requires
            pow2(256) == pow2(128) * pow2(128),
            pow2(128) == 0x1_0000_0000_0000_0000_0000_0000_0000_0000nat,
    ;
    lemma_pow2_unfold(256);
}

} // verus!
