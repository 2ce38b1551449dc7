//! The arithmetic, comparison and bitwise unit: one function per opcode, each
//! stated over the numbers that the words stand for.  Operands are given in the
//! order they are popped: `a` is the top of the stack.
use vstd::prelude::*;
use vstd::arithmetic::div_mod::*;
use vstd::arithmetic::power::pow;
use vstd::arithmetic::power2::*;
use crate::word::{
    Word, from_limbs, lemma_pow2_word, lemma_value_limbs, limb, limb_base, sign_bound, to_signed,
    word_modulus, wrap,
};
use crate::u256;

verus! {

// ---------------------------------------------------------------------------
// What each operation computes
// ---------------------------------------------------------------------------

pub open spec fn add_spec(a: nat, b: nat) -> nat {
    (a + b) % word_modulus()
}

pub open spec fn sub_spec(a: nat, b: nat) -> nat {
    wrap(a - b)
}

pub open spec fn mul_spec(a: nat, b: nat) -> nat {
    (a * b) % word_modulus()
}

pub open spec fn div_spec(a: nat, b: nat) -> nat {
    if b == 0 {
        0
    } else {
        a / b
    }
}

pub open spec fn mod_spec(a: nat, b: nat) -> nat {
    if b == 0 {
        0
    } else {
        a % b
    }
}

pub open spec fn bool_word(b: bool) -> nat {
    if b {
        1
    } else {
        0
    }
}

pub open spec fn lt_spec(a: nat, b: nat) -> nat {
    bool_word(a < b)
}

pub open spec fn gt_spec(a: nat, b: nat) -> nat {
    bool_word(a > b)
}

pub open spec fn slt_spec(a: nat, b: nat) -> nat {
    bool_word(to_signed(a) < to_signed(b))
}

pub open spec fn sgt_spec(a: nat, b: nat) -> nat {
    bool_word(to_signed(a) > to_signed(b))
}

pub open spec fn eq_spec(a: nat, b: nat) -> nat {
    bool_word(a == b)
}

pub open spec fn iszero_spec(a: nat) -> nat {
    bool_word(a == 0)
}

pub open spec fn and_spec(a: nat, b: nat) -> nat {
    from_limbs(limb(a, 0) & limb(b, 0), limb(a, 1) & limb(b, 1), limb(a, 2) & limb(b, 2), limb(a, 3) & limb(b, 3))
}

pub open spec fn or_spec(a: nat, b: nat) -> nat {
    from_limbs(limb(a, 0) | limb(b, 0), limb(a, 1) | limb(b, 1), limb(a, 2) | limb(b, 2), limb(a, 3) | limb(b, 3))
}

pub open spec fn xor_spec(a: nat, b: nat) -> nat {
    from_limbs(limb(a, 0) ^ limb(b, 0), limb(a, 1) ^ limb(b, 1), limb(a, 2) ^ limb(b, 2), limb(a, 3) ^ limb(b, 3))
}

/// Every bit flipped.
pub open spec fn not_spec(a: nat) -> nat {
    (word_modulus() - 1 - a) as nat
}

/// Byte `i` of `v`, counted from the most significant; 0 past the last byte.
pub open spec fn byte_spec(i: nat, v: nat) -> nat {
    if i >= 32 {
        0
    } else {
        (v / pow2((8 * (31 - i)) as nat)) % 256
    }
}

pub open spec fn shl_spec(s: nat, v: nat) -> nat {
    (v * pow2(s)) % word_modulus()
}

pub open spec fn shr_spec(s: nat, v: nat) -> nat {
    v / pow2(s)
}

/// Arithmetic shift right: the signed value divided by 2^s, rounded down.
pub open spec fn sar_spec(s: nat, v: nat) -> nat {
    wrap(to_signed(v) / (pow2(s) as int))
}

/// `x` with every bit above byte `b` (counted from the least significant)
/// replaced by the top bit of that byte.
pub open spec fn signextend_spec(b: nat, x: nat) -> nat {
    if b >= 32 {
        x
    } else {
        let t = 8 * (b + 1);
        let low = x % pow2(t);
        if low >= pow2((t - 1) as nat) {
            (low + word_modulus() - pow2(t)) as nat
        } else {
            low
        }
    }
}

pub open spec fn abs_int(x: int) -> int {
    if x < 0 {
        -x
    } else {
        x
    }
}

/// Signed division, rounding toward zero; dividing by zero gives zero.
pub open spec fn sdiv_spec(a: nat, b: nat) -> nat {
    if b == 0 {
        0
    } else {
        let q = abs_int(to_signed(a)) / abs_int(to_signed(b));
        wrap(if (to_signed(a) < 0) != (to_signed(b) < 0) { -q } else { q })
    }
}

/// Signed remainder, with the sign of the dividend; a zero modulus gives zero.
pub open spec fn smod_spec(a: nat, b: nat) -> nat {
    if b == 0 {
        0
    } else {
        let r = abs_int(to_signed(a)) % abs_int(to_signed(b));
        wrap(if to_signed(a) < 0 { -r } else { r })
    }
}

/// `(a + b) mod n` without losing the carry; a zero modulus gives zero.
pub open spec fn addmod_spec(a: nat, b: nat, n: nat) -> nat {
    if n == 0 {
        0
    } else {
        (a + b) % n
    }
}

/// `(a * b) mod n` over the full product; a zero modulus gives zero.
pub open spec fn mulmod_spec(a: nat, b: nat, n: nat) -> nat {
    if n == 0 {
        0
    } else {
        (a * b) % n
    }
}

/// `a` to the power `e`, modulo 2^256; anything to the power 0 is 1.
pub open spec fn exp_spec(a: nat, e: nat) -> nat {
    (pow(a as int, e) % (word_modulus() as int)) as nat
}

/// `n` with its lowest `k` limbs shifted out.
pub open spec fn drop_limbs(n: nat, k: nat) -> nat
    decreases k,
{
    if k == 0 {
        n
    } else {
        drop_limbs(n, (k - 1) as nat) / limb_base()
    }
}

// ---------------------------------------------------------------------------
// The operations
// ---------------------------------------------------------------------------

pub fn wrapping_add(a: Word, b: Word) -> (r: Word)
    ensures
        r.value() == add_spec(a.value(), b.value()),
{
    u256::overflowing_add(a, b).0
}

pub fn wrapping_sub(a: Word, b: Word) -> (r: Word)
    ensures
        r.value() == sub_spec(a.value(), b.value()),
{
    u256::overflowing_sub(a, b)
}

pub fn wrapping_mul(a: Word, b: Word) -> (r: Word)
    ensures
        r.value() == mul_spec(a.value(), b.value()),
{
    u256::overflowing_mul(a, b)
}

/// Unsigned division; dividing by zero gives zero.
pub fn div(a: Word, b: Word) -> (r: Word)
    ensures
        r.value() == div_spec(a.value(), b.value()),
{
    if b.is_zero() {
        Word::zero()
    } else {
        u256::div_mod(a, b).0
    }
}

/// Unsigned remainder; a zero modulus gives zero.
pub fn rem(a: Word, b: Word) -> (r: Word)
    ensures
        r.value() == mod_spec(a.value(), b.value()),
{
    if b.is_zero() {
        Word::zero()
    } else {
        u256::div_mod(a, b).1
    }
}

fn from_bool(b: bool) -> (r: Word)
    ensures
        r.value() == bool_word(b),
{
    if b {
        Word::one()
    } else {
        Word::zero()
    }
}

/// Unsigned `a < b`, compared from the most significant limb down.
fn less_than(a: Word, b: Word) -> (r: bool)
    ensures
        r == (a.value() < b.value()),
{
    proof {
        lemma_value_limbs(a);
        lemma_value_limbs(b);
    }
    let mut k: usize = 4;
    while k > 0
        invariant
            k <= 4,
            forall|j: int| k <= j < 4 ==> a.limbs[j] == b.limbs[j],
        decreases k,
    {
        k = k - 1;
        if a.limbs[k] != b.limbs[k] {
            proof {
                lemma_limb_order(a, b, k as int);
            }
            return a.limbs[k] < b.limbs[k];
        }
    }
    proof {
        lemma_value_injective_limbs(a, b);
    }
    false
}

pub fn lt(a: Word, b: Word) -> (r: Word)
    ensures
        r.value() == lt_spec(a.value(), b.value()),
{
    from_bool(less_than(a, b))
}

pub fn gt(a: Word, b: Word) -> (r: Word)
    ensures
        r.value() == gt_spec(a.value(), b.value()),
{
    from_bool(less_than(b, a))
}

pub fn eq(a: Word, b: Word) -> (r: Word)
    ensures
        r.value() == eq_spec(a.value(), b.value()),
{
    proof {
        lemma_value_limbs(a);
        lemma_value_limbs(b);
    }
    let same = a.limbs[0] == b.limbs[0] && a.limbs[1] == b.limbs[1] && a.limbs[2] == b.limbs[2]
        && a.limbs[3] == b.limbs[3];
    proof {
        if same {
            lemma_value_injective_limbs(a, b);
        }
    }
    from_bool(same)
}

pub fn is_zero(a: Word) -> (r: Word)
    ensures
        r.value() == iszero_spec(a.value()),
{
    from_bool(a.is_zero())
}

pub fn bit_and(a: Word, b: Word) -> (r: Word)
    ensures
        r.value() == and_spec(a.value(), b.value()),
{
    proof {
        lemma_value_limbs(a);
        lemma_value_limbs(b);
    }
    Word {
        limbs: [
            a.limbs[0] & b.limbs[0],
            a.limbs[1] & b.limbs[1],
            a.limbs[2] & b.limbs[2],
            a.limbs[3] & b.limbs[3],
        ],
    }
}

pub fn bit_or(a: Word, b: Word) -> (r: Word)
    ensures
        r.value() == or_spec(a.value(), b.value()),
{
    proof {
        lemma_value_limbs(a);
        lemma_value_limbs(b);
    }
    Word {
        limbs: [
            a.limbs[0] | b.limbs[0],
            a.limbs[1] | b.limbs[1],
            a.limbs[2] | b.limbs[2],
            a.limbs[3] | b.limbs[3],
        ],
    }
}

pub fn bit_xor(a: Word, b: Word) -> (r: Word)
    ensures
        r.value() == xor_spec(a.value(), b.value()),
{
    proof {
        lemma_value_limbs(a);
        lemma_value_limbs(b);
    }
    Word {
        limbs: [
            a.limbs[0] ^ b.limbs[0],
            a.limbs[1] ^ b.limbs[1],
            a.limbs[2] ^ b.limbs[2],
            a.limbs[3] ^ b.limbs[3],
        ],
    }
}

pub fn bit_not(a: Word) -> (r: Word)
    ensures
        r.value() == not_spec(a.value()),
{
    let r = Word { limbs: [!a.limbs[0], !a.limbs[1], !a.limbs[2], !a.limbs[3]] };
    proof {
        lemma_not_limb(a.limbs[0]);
        lemma_not_limb(a.limbs[1]);
        lemma_not_limb(a.limbs[2]);
        lemma_not_limb(a.limbs[3]);
        lemma_value_limbs(a);
    }
    r
}

/// The shift amount as a `u32`, when it is below 256.
fn small_shift(s: Word) -> (r: Option<u32>)
    ensures
        s.value() < 256 ==> r == Some(s.value() as u32),
        s.value() >= 256 ==> r is None,
{
    match s.to_u64() {
        Some(x) => {
            if x < 256 {
                Some(x as u32)
            } else {
                None
            }
        },
        None => None,
    }
}

/// `v` shifted left by `s` bits; 0 once `s` reaches 256.
pub fn shl(s: Word, v: Word) -> (r: Word)
    ensures
        r.value() == shl_spec(s.value(), v.value()),
{
    match small_shift(s) {
        Some(n) => u256::shift_left(v, n),
        None => {
            proof {
                lemma_shl_past_end(s.value(), v.value());
            }
            Word::zero()
        },
    }
}

/// `v` shifted right by `s` bits, filling with zeros; 0 once `s` reaches 256.
pub fn shr(s: Word, v: Word) -> (r: Word)
    ensures
        r.value() == shr_spec(s.value(), v.value()),
{
    match small_shift(s) {
        Some(n) => u256::shift_right(v, n),
        None => {
            proof {
                lemma_shr_past_end(s.value(), v.value());
            }
            Word::zero()
        },
    }
}

/// Byte `i` of `v`, the most significant being byte 0.
pub fn byte(i: Word, v: Word) -> (r: Word)
    ensures
        r.value() == byte_spec(i.value(), v.value()),
{
    match i.to_u64() {
        Some(k) => {
            if k < 32 {
                let shift = (8 * (31 - k)) as u32;
                let moved = u256::shift_right(v, shift);
                let low = moved.limbs[0] & 0xff;
                proof {
                    lemma_value_limbs(moved);
                    lemma_low_byte(moved.limbs[0]);
                    lemma_pow2_word();
                    lemma_mod_mod(moved.value() as int, 256, 0x100_0000_0000_0000);
                }
                return Word::from_u64(low);
            }
        },
        None => {},
    }
    Word::zero()
}

/// Whether the word is negative in two's complement.
fn is_negative(a: Word) -> (r: bool)
    ensures
        r == (a.value() >= sign_bound()),
        r == (to_signed(a.value()) < 0),
{
    proof {
        lemma_sign_limb(a);
    }
    a.limbs[3] >= 0x8000_0000_0000_0000
}

/// Two's complement negation, `0 - a` modulo 2^256.
fn negate(a: Word) -> (r: Word)
    ensures
        r.value() == wrap(-(a.value() as int)),
{
    u256::overflowing_sub(Word::zero(), a)
}

/// The magnitude of the word read as signed; it is at most 2^255.
fn magnitude(a: Word) -> (r: Word)
    ensures
        r.value() == abs_int(to_signed(a.value())),
{
    proof {
        lemma_value_limbs(a);
    }
    if is_negative(a) {
        let r = negate(a);
        proof {
            lemma_wrap_small((word_modulus() - a.value()) as int);
            lemma_wrap_shift(-(a.value() as int));
        }
        r
    } else {
        a
    }
}

/// Signed `a < b`: a negative word is below every other; words of one sign
/// compare as unsigned.
pub fn slt(a: Word, b: Word) -> (r: Word)
    ensures
        r.value() == slt_spec(a.value(), b.value()),
{
    let na = is_negative(a);
    let nb = is_negative(b);
    if na && !nb {
        from_bool(true)
    } else if !na && nb {
        from_bool(false)
    } else {
        from_bool(less_than(a, b))
    }
}

/// Signed `a > b`.
pub fn sgt(a: Word, b: Word) -> (r: Word)
    ensures
        r.value() == sgt_spec(a.value(), b.value()),
{
    slt(b, a)
}

/// Arithmetic shift right by fewer than 256 bits.
fn sar_by(v: Word, s: u32) -> (r: Word)
    requires
        s < 256,
    ensures
        r.value() == sar_spec(s as nat, v.value()),
{
    proof {
        lemma_value_limbs(v);
        lemma_pow2_pos(s as nat);
    }
    if is_negative(v) {
        let inverted = bit_not(v);
        let moved = u256::shift_right(inverted, s);
        let r = bit_not(moved);
        proof {
            lemma_sar_negative(v.value(), pow2(s as nat));
        }
        r
    } else {
        let r = u256::shift_right(v, s);
        proof {
            lemma_div_nonincreasing_nat(v.value(), pow2(s as nat));
            lemma_wrap_small(r.value() as int);
        }
        r
    }
}

/// Arithmetic shift right: `v` shifted by `s` bits, filling with its sign bit.
pub fn sar(s: Word, v: Word) -> (r: Word)
    ensures
        r.value() == sar_spec(s.value(), v.value()),
{
    match small_shift(s) {
        Some(n) => sar_by(v, n),
        None => {
            proof {
                lemma_value_limbs(v);
                lemma_sar_past_end(s.value(), v.value());
            }
            if is_negative(v) {
                Word::max_value()
            } else {
                Word::zero()
            }
        },
    }
}

/// Sign extension from byte `b`: bytes above it are filled with its top bit.
pub fn signextend(b: Word, x: Word) -> (r: Word)
    ensures
        r.value() == signextend_spec(b.value(), x.value()),
{
    match b.to_u64() {
        Some(k) => {
            if k < 32 {
                let s = (8 * (31 - k)) as u32;
                let y = u256::shift_left(x, s);
                let r = sar_by(y, s);
                proof {
                    lemma_value_limbs(x);
                    lemma_signextend_by_shifts(k as nat, x.value(), y.value());
                }
                return r;
            }
        },
        None => {},
    }
    x
}

/// Signed division, rounding toward zero; -2^255 / -1 wraps to -2^255.
pub fn sdiv(a: Word, b: Word) -> (r: Word)
    ensures
        r.value() == sdiv_spec(a.value(), b.value()),
{
    if b.is_zero() {
        return Word::zero();
    }
    let ua = magnitude(a);
    let ub = magnitude(b);
    let q = u256::div_mod(ua, ub).0;
    proof {
        lemma_value_limbs(q);
    }
    if is_negative(a) != is_negative(b) {
        negate(q)
    } else {
        proof {
            lemma_wrap_small(q.value() as int);
        }
        q
    }
}

/// Signed remainder, taking the sign of the dividend.
pub fn smod(a: Word, b: Word) -> (r: Word)
    ensures
        r.value() == smod_spec(a.value(), b.value()),
{
    if b.is_zero() {
        return Word::zero();
    }
    let ua = magnitude(a);
    let ub = magnitude(b);
    let m = u256::div_mod(ua, ub).1;
    proof {
        lemma_value_limbs(m);
    }
    if is_negative(a) {
        negate(m)
    } else {
        proof {
            lemma_wrap_small(m.value() as int);
        }
        m
    }
}

/// `(a + b) mod n`, reducing both operands first so that one subtraction of
/// `n` brings the sum back into range.
pub fn addmod(a: Word, b: Word, n: Word) -> (r: Word)
    ensures
        r.value() == addmod_spec(a.value(), b.value(), n.value()),
{
    if n.is_zero() {
        return Word::zero();
    }
    let x = rem(a, n);
    let y = rem(b, n);
    let (sum, carried) = u256::overflowing_add(x, y);
    proof {
        let m = n.value() as int;
        lemma_value_limbs(n);
        lemma_mod_bound(a.value() as int, m);
        lemma_mod_bound(b.value() as int, m);
        lemma_add_mod_noop(a.value() as int, b.value() as int, m);
    }
    if carried || !less_than(sum, n) {
        let r = u256::overflowing_sub(sum, n);
        proof {
            let total = x.value() + y.value() as int;
            let m = n.value() as int;
            lemma_fundamental_div_mod_converse(total, m, 1, total - m);
            if carried {
                lemma_small_mod(sum.value(), word_modulus());
                lemma_wrap_shift(sum.value() - m);
            }
            lemma_wrap_small(total - m);
        }
        r
    } else {
        proof {
            lemma_small_mod(sum.value(), word_modulus());
            lemma_small_mod(sum.value(), n.value());
        }
        sum
    }
}

/// `(a * b) mod n`, reduced from the full 512-bit product.
pub fn mulmod(a: Word, b: Word, n: Word) -> (r: Word)
    ensures
        r.value() == mulmod_spec(a.value(), b.value(), n.value()),
{
    if n.is_zero() {
        return Word::zero();
    }
    u256::wide_rem(u256::full_mul(a, b), n)
}

/// `a` to the power `e` modulo 2^256, by square-and-multiply over the bits of
/// `e` from the least significant up, wrapping at every multiplication.
pub fn exp(a: Word, e: Word) -> (r: Word)
    ensures
        r.value() == exp_spec(a.value(), e.value()),
{
    let ghost m = word_modulus() as int;
    let ghost target = pow(a.value() as int, e.value()) % m;
    let mut result = Word::one();
    let mut base = a;
    // The part of the exponent not yet applied.
    let ghost mut rest: nat = e.value();
    proof {
        lemma_value_limbs(e);
        lemma_small_mod(1, word_modulus());
        lemma_drop_limbs(e);
    }
    let mut k: usize = 0;
    while k < 4
        invariant
            k <= 4,
            m == word_modulus(),
            rest == drop_limbs(e.value(), k as nat),
            forall|i: int| 0 <= i < 4 ==> #[trigger] drop_limbs(e.value(), i as nat) % limb_base() == e.limbs[i],
            drop_limbs(e.value(), 4) == 0,
            (result.value() * pow(base.value() as int, rest)) % m == target,
        decreases 4 - k,
    {
        let mut x: u64 = e.limbs[k];
        let ghost high = drop_limbs(e.value(), (k + 1) as nat);
        proof {
            lemma_fundamental_div_mod(rest as int, limb_base() as int);
            lemma_pow2_word();
        }
        let mut j: u32 = 0;
        while j < 64
            invariant
                j <= 64,
                m == word_modulus(),
                x < pow2((64 - j) as nat),
                rest == x + pow2((64 - j) as nat) * high,
                (result.value() * pow(base.value() as int, rest)) % m == target,
            decreases 64 - j,
        {
            let odd = x % 2 == 1;
            let ghost half: nat = rest / 2;
            proof {
                lemma_pow2_unfold((64 - j) as nat);
                lemma_halve(x as nat, pow2((63 - j) as nat), high, rest);
                lemma_exp_step(result.value() as int, base.value() as int, half, odd);
            }
            if odd {
                result = wrapping_mul(result, base);
            }
            base = wrapping_mul(base, base);
            x = x / 2;
            j = j + 1;
            proof {
                rest = half;
            }
        }
        proof {
            assert(pow2(0) == 1) by {
                lemma2_to64();
            }
            assert(j == 64);
            assert(pow2((64 - j) as nat) == 1);
        }
        k = k + 1;
    }
    proof {
        vstd::arithmetic::power::lemma_pow0(base.value() as int);
        lemma_small_mod(result.value(), word_modulus());
    }
    result
}

// ---------------------------------------------------------------------------
// Lemmas
// ---------------------------------------------------------------------------

/// The sign of a word sits in its top limb.
proof fn lemma_sign_limb(w: Word)
    ensures
        (w.value() >= sign_bound()) == (w.limbs[3] >= 0x8000_0000_0000_0000),
{
    let (l0, l1, l2, l3) = (w.limbs[0] as int, w.limbs[1] as int, w.limbs[2] as int, w.limbs[3] as int);
    assert((w.value() >= sign_bound()) == (l3 >= 0x8000_0000_0000_0000)) by (nonlinear_arith)
        requires
            w.value() == l0 + limb_base() * (l1 + limb_base() * (l2 + limb_base() * l3)),
            0 <= l0 < limb_base(),
            0 <= l1 < limb_base(),
            0 <= l2 < limb_base(),
            0 <= l3 < limb_base(),
            limb_base() == 0x1_0000_0000_0000_0000nat,
            sign_bound() == 0x8000_0000_0000_0000_0000_0000_0000_0000_0000_0000_0000_0000_0000_0000_0000_0000nat,
    ;
}

/// Numbers already in range are left alone by wrapping.
proof fn lemma_wrap_small(x: int)
    requires
        0 <= x < word_modulus(),
    ensures
        wrap(x) == x,
{
    lemma_small_mod(x as nat, word_modulus());
}

/// Wrapping ignores whole turns of 2^256.
proof fn lemma_wrap_shift(x: int)
    ensures
        wrap(x) == wrap(x + word_modulus()),
{
    lemma_mod_add_multiples_vanish(x, word_modulus() as int);
}

proof fn lemma_div_nonincreasing_nat(x: nat, d: nat)
    requires
        d > 0,
    ensures
        x / d <= x,
{
    lemma_div_is_ordered_by_denominator(x as int, 1, d as int);
}

/// For a negative word, flipping, shifting and flipping back rounds the
/// signed value down.
proof fn lemma_sar_negative(v: nat, d: nat)
    requires
        sign_bound() <= v < word_modulus(),
        d > 0,
    ensures
        not_spec(not_spec(v) / d) == wrap((v - word_modulus()) / (d as int)),
{
    let u = not_spec(v) as int;
    let q = u / (d as int);
    lemma_fundamental_div_mod(u, d as int);
    lemma_mod_bound(u, d as int);
    assert((-q - 1) * d == -(d * q) - d) by (nonlinear_arith);
    lemma_fundamental_div_mod_converse(v - word_modulus(), d as int, -q - 1, d - (u % (d as int)) - 1);
    lemma_div_nonincreasing_nat(u as nat, d);
    lemma_fundamental_div_mod_converse(-q - 1, word_modulus() as int, -1, word_modulus() - q - 1);
}

proof fn lemma_sar_past_end(s: nat, v: nat)
    requires
        s >= 256,
        v < word_modulus(),
    ensures
        sar_spec(s, v) == if v >= sign_bound() { word_modulus() - 1 } else { 0 },
{
    lemma_pow2_word();
    if s > 256 {
        lemma_pow2_strictly_increases(256, s);
    }
    let d = pow2(s) as int;
    if v >= sign_bound() {
        lemma_fundamental_div_mod_converse(v - word_modulus(), d, -1, v - word_modulus() + d);
        lemma_fundamental_div_mod_converse(-1, word_modulus() as int, -1, word_modulus() - 1);
    } else {
        lemma_fundamental_div_mod_converse(v as int, d, 0, v as int);
        lemma_small_mod(0, word_modulus());
    }
}

/// Sign extension from byte `k` is a left shift that puts that byte on top,
/// followed by an arithmetic shift back.
proof fn lemma_signextend_by_shifts(k: nat, x: nat, y: nat)
    requires
        k < 32,
        x < word_modulus(),
        y == shl_spec((8 * (31 - k)) as nat, x),
    ensures
        sar_spec((8 * (31 - k)) as nat, y) == signextend_spec(k, x),
{
    let s = (8 * (31 - k)) as nat;
    let t = 8 * (k + 1);
    let ps = pow2(s) as int;
    let pt = pow2(t) as int;
    let low = x % pow2(t);
    lemma_pow2_word();
    lemma_pow2_adds(s, t);
    assert(s + t == 256);
    lemma_pow2_pos(s);
    lemma_pow2_pos(t);
    lemma_pow2_adds(s, (t - 1) as nat);
    assert(s + (t - 1) == 255);
    lemma_pow2_unfold(t);
    lemma_truncate_middle(x as int, ps, pt);
    vstd::arithmetic::mul::lemma_mul_is_commutative(x as int, ps);
    assert(y == ps * low);
    lemma_mod_bound(x as int, pt);
    let half = pow2((t - 1) as nat) as int;
    assert((y >= sign_bound()) == (low >= half)) by {
        if low >= half {
            vstd::arithmetic::mul::lemma_mul_inequality(half, low as int, ps);
        } else {
            vstd::arithmetic::mul::lemma_mul_strict_inequality(low as int, half, ps);
        }
        vstd::arithmetic::mul::lemma_mul_is_commutative(half, ps);
        vstd::arithmetic::mul::lemma_mul_is_commutative(low as int, ps);
    }
    assert(pt <= word_modulus()) by (nonlinear_arith)
        requires
            ps * pt == word_modulus(),
            ps >= 1,
            pt > 0,
    ;
    if low >= half {
        assert(to_signed(y) == ps * (low - pt)) by {
            vstd::arithmetic::mul::lemma_mul_is_distributive_sub(ps, low as int, pt);
        }
        lemma_div_multiples_vanish(low - pt, ps);
        lemma_wrap_shift(low - pt);
        lemma_wrap_small(low - pt + word_modulus());
    } else {
        lemma_div_multiples_vanish(low as int, ps);
        lemma_wrap_small(low as int);
    }
}

/// The limbs of a word, seen through `drop_limbs`.
proof fn lemma_drop_limbs(w: Word)
    ensures
        forall|i: int| 0 <= i < 4 ==> #[trigger] drop_limbs(w.value(), i as nat) % limb_base() == w.limbs[i],
        drop_limbs(w.value(), 4) == 0,
{
    lemma_value_limbs(w);
    reveal_with_fuel(drop_limbs, 5);
    lemma_small_div_converse_nat(w.limbs[3] as nat, limb_base());
    lemma_small_mod(w.limbs[3] as nat, limb_base());
    assert forall|i: int| 0 <= i < 4 implies #[trigger] drop_limbs(w.value(), i as nat) % limb_base() == w.limbs[i] by {
        if i == 0 {
        } else if i == 1 {
        } else if i == 2 {
        } else {
        }
    }
}

/// Halving `x + 2q * high` halves `x` and keeps its parity.
proof fn lemma_halve(x: nat, q: nat, high: nat, rest: nat)
    requires
        rest == x + 2 * q * high,
    ensures
        rest / 2 == x / 2 + q * high,
        rest % 2 == x % 2,
{
    assert(rest == 2 * (x / 2 + q * high) + x % 2) by (nonlinear_arith)
        requires
            rest == x + 2 * q * high,
            x == 2 * (x / 2) + x % 2,
    ;
    lemma_fundamental_div_mod_converse(rest as int, 2, (x / 2 + q * high) as int, (x % 2) as int);
}

/// One round of square-and-multiply keeps `result * base^rest` fixed modulo 2^256.
proof fn lemma_exp_step(r: int, b: int, h: nat, odd: bool)
    ensures
        ((if odd { (r * b) % (word_modulus() as int) } else { r }) * pow((b * b) % (word_modulus() as int), h))
            % (word_modulus() as int) == (r * pow(b, 2 * h + if odd { 1nat } else { 0nat }))
            % (word_modulus() as int),
{
    let m = word_modulus() as int;
    let p = pow(b * b, h);
    vstd::arithmetic::power::lemma_pow_mod_noop(b * b, h, m);
    vstd::arithmetic::power::lemma_square_is_pow2(b);
    vstd::arithmetic::power::lemma_pow_multiplies(b, 2, h);
    // pow(b * b mod m, h) may be replaced by pow(b * b, h) under the modulus.
    lemma_mul_mod_noop_general(if odd { (r * b) % m } else { r }, p, m);
    lemma_mul_mod_noop_general(if odd { (r * b) % m } else { r }, pow((b * b) % m, h), m);
    if odd {
        lemma_mul_mod_noop_general(r * b, p, m);
        vstd::arithmetic::power::lemma_pow_adds(b, 2 * h, 1);
        vstd::arithmetic::power::lemma_pow1(b);
        assert(r * b * p == r * (p * b)) by (nonlinear_arith);
    }
}

proof fn lemma_not_limb(x: u64)
    ensures
        !x == 0xffff_ffff_ffff_ffff - x,
{
    assert(!x == 0xffff_ffff_ffff_ffff - x) by (bit_vector);
}

proof fn lemma_low_byte(x: u64)
    ensures
        x & 0xff == x % 256,
{
    assert(x & 0xff == x % 256) by (bit_vector);
}

/// Words whose limbs agree are equal in value.
proof fn lemma_value_injective_limbs(a: Word, b: Word)
    requires
        a.limbs[0] == b.limbs[0],
        a.limbs[1] == b.limbs[1],
        a.limbs[2] == b.limbs[2],
        a.limbs[3] == b.limbs[3],
    ensures
        a.value() == b.value(),
{
}

/// The first limb from the top where two words differ decides their order.
proof fn lemma_limb_order(a: Word, b: Word, k: int)
    requires
        0 <= k < 4,
        forall|j: int| k < j < 4 ==> a.limbs[j] == b.limbs[j],
        a.limbs[k] != b.limbs[k],
    ensures
        (a.value() < b.value()) == (a.limbs[k] < b.limbs[k]),
{
    let base = limb_base() as int;
    let (a0, a1, a2, a3) = (a.limbs[0] as int, a.limbs[1] as int, a.limbs[2] as int, a.limbs[3] as int);
    let (b0, b1, b2, b3) = (b.limbs[0] as int, b.limbs[1] as int, b.limbs[2] as int, b.limbs[3] as int);
    // The value below limb k fits under its weight, so limb k decides.
    if k == 0 {
    } else if k == 1 {
        assert(a0 < base && b0 < base);
    } else if k == 2 {
        assert(a0 + base * a1 < base * base);
        assert(b0 + base * b1 < base * base);
    } else {
        assert(a0 + base * (a1 + base * a2) < base * base * base);
        assert(b0 + base * (b1 + base * b2) < base * base * base);
    }
}

proof fn lemma_shl_past_end(s: nat, v: nat)
    requires
        s >= 256,
    ensures
        shl_spec(s, v) == 0,
{
    lemma_pow2_word();
    lemma_pow2_adds(256, (s - 256) as nat);
    assert(v * pow2(s) == (v * pow2((s - 256) as nat)) * word_modulus()) by {
        vstd::arithmetic::mul::lemma_mul_is_associative(v as int, pow2((s - 256) as nat) as int, word_modulus() as int);
    }
    lemma_mod_multiples_basic((v * pow2((s - 256) as nat)) as int, word_modulus() as int);
}

proof fn lemma_shr_past_end(s: nat, v: nat)
    requires
        s >= 256,
        v < word_modulus(),
    ensures
        shr_spec(s, v) == 0,
{
    lemma_pow2_word();
    if s > 256 {
        lemma_pow2_strictly_increases(256, s);
    }
    lemma_small_div_converse_nat(v, pow2(s));
}

proof fn lemma_small_div_converse_nat(x: nat, d: nat)
    requires
        x < d,
    ensures
        x / d == 0,
{
    lemma_fundamental_div_mod_converse(x as int, d as int, 0, x as int);
}

} // verus!
