use evm::arith::{
    addmod, bit_and, bit_not, bit_or, bit_xor, byte, div, eq, exp, gt, is_zero, lt, mulmod, rem,
    sar, sdiv, sgt, shl, shr, signextend, slt, smod, wrapping_add, wrapping_mul, wrapping_sub,
};
use evm::word::Word;

fn w(x: u64) -> Word {
    Word::from_u64(x)
}

fn neg(x: u64) -> Word {
    wrapping_sub(w(0), w(x))
}

fn min_signed() -> Word {
    Word::from_limbs([0, 0, 0, 0x8000_0000_0000_0000])
}

#[test]
fn add_wraps() {
    assert_eq!(wrapping_add(w(2), w(3)), w(5));
    assert_eq!(wrapping_add(Word::max_value(), w(1)), w(0));
    assert_eq!(wrapping_add(w(u64::MAX), w(1)), Word::from_limbs([0, 1, 0, 0]));
}

#[test]
fn sub_wraps() {
    assert_eq!(wrapping_sub(w(10), w(3)), w(7));
    assert_eq!(wrapping_sub(w(0), w(1)), Word::max_value());
}

#[test]
fn add_then_sub_gives_back() {
    let a = Word::from_limbs([5, 6, 7, u64::MAX]);
    let b = Word::from_limbs([u64::MAX, 1, 2, 3]);
    assert_eq!(wrapping_sub(wrapping_add(a, b), b), a);
    assert_eq!(wrapping_sub(wrapping_add(Word::max_value(), Word::max_value()), Word::max_value()), Word::max_value());
}

#[test]
fn mul_wraps() {
    assert_eq!(wrapping_mul(w(6), w(7)), w(42));
    assert_eq!(wrapping_mul(w(1 << 32), w(1 << 32)), Word::from_limbs([0, 1, 0, 0]));
    assert_eq!(wrapping_mul(Word::max_value(), Word::max_value()), w(1));
}

#[test]
fn unsigned_division() {
    assert_eq!(div(w(7), w(2)), w(3));
    assert_eq!(rem(w(7), w(2)), w(1));
    assert_eq!(div(Word::from_limbs([0, 1, 0, 0]), w(2)), w(1 << 63));
}

#[test]
fn division_by_zero_is_zero() {
    for a in [w(0), w(1), Word::max_value(), min_signed()] {
        assert_eq!(div(a, w(0)), w(0));
        assert_eq!(rem(a, w(0)), w(0));
        assert_eq!(sdiv(a, w(0)), w(0));
        assert_eq!(smod(a, w(0)), w(0));
    }
}

#[test]
fn signed_division() {
    assert_eq!(sdiv(neg(7), w(2)), neg(3));
    assert_eq!(sdiv(w(7), neg(2)), neg(3));
    assert_eq!(sdiv(neg(7), neg(2)), w(3));
    assert_eq!(sdiv(min_signed(), neg(1)), min_signed());
}

#[test]
fn signed_remainder() {
    assert_eq!(smod(neg(7), w(3)), neg(1));
    assert_eq!(smod(w(7), neg(3)), w(1));
    assert_eq!(smod(neg(8), neg(3)), neg(2));
}

#[test]
fn addmod_keeps_the_carry() {
    assert_eq!(addmod(w(10), w(10), w(8)), w(4));
    // (2^256 - 1) + 2 = 2^256 + 1, and 2^256 = 16 * (2^252) so mod 3: 2^256 mod 3 = 1
    assert_eq!(addmod(Word::max_value(), w(2), w(3)), w(2));
    assert_eq!(addmod(w(1), w(2), w(0)), w(0));
}

#[test]
fn mulmod_uses_the_full_product() {
    assert_eq!(mulmod(w(10), w(10), w(8)), w(4));
    // (2^256 - 1)^2 mod 12: 2^256 - 1 = 3 mod 12 (2^256 = 4 mod 12), so 9
    assert_eq!(mulmod(Word::max_value(), Word::max_value(), w(12)), w(9));
    assert_eq!(mulmod(w(3), w(4), w(0)), w(0));
}

#[test]
fn exp_values() {
    assert_eq!(exp(w(2), w(10)), w(1024));
    assert_eq!(exp(w(3), w(0)), w(1));
    assert_eq!(exp(w(0), w(0)), w(1));
    assert_eq!(exp(w(0), w(5)), w(0));
    assert_eq!(exp(w(2), w(255)), min_signed());
    assert_eq!(exp(w(2), w(256)), w(0));
    assert_eq!(exp(Word::max_value(), w(3)), Word::max_value());
    assert_eq!(exp(w(7), Word::from_limbs([0, 0, 0, 1 << 60])), exp(w(49), Word::from_limbs([0, 0, 0, 1 << 59])));
}

#[test]
fn signextend_values() {
    assert_eq!(signextend(w(0), w(0xff)), Word::max_value());
    assert_eq!(signextend(w(0), w(0x7f)), w(0x7f));
    assert_eq!(signextend(w(0), w(0x1280)), neg(0x80));
    assert_eq!(signextend(w(1), w(0xff_7fff)), w(0x7fff));
    assert_eq!(signextend(w(32), w(0xff)), w(0xff));
    assert_eq!(signextend(w(31), Word::max_value()), Word::max_value());
}

#[test]
fn signextend_twice_is_once() {
    for b in [0u64, 1, 5, 30, 31, 40] {
        for x in [w(0x80), w(0x12_3456), Word::from_limbs([1, 2, 3, 4]), Word::max_value()] {
            let once = signextend(w(b), x);
            assert_eq!(signextend(w(b), once), once);
        }
    }
}

#[test]
fn comparisons() {
    assert_eq!(lt(w(1), w(2)), w(1));
    assert_eq!(lt(w(2), w(1)), w(0));
    assert_eq!(gt(w(2), w(1)), w(1));
    assert_eq!(lt(w(5), Word::from_limbs([0, 0, 0, 1])), w(1));
    assert_eq!(eq(w(5), w(5)), w(1));
    assert_eq!(eq(w(5), Word::from_limbs([5, 1, 0, 0])), w(0));
    assert_eq!(is_zero(w(0)), w(1));
    assert_eq!(is_zero(w(9)), w(0));
}

#[test]
fn signed_comparisons() {
    assert_eq!(slt(neg(1), w(1)), w(1));
    assert_eq!(slt(w(1), neg(1)), w(0));
    assert_eq!(slt(neg(2), neg(1)), w(1));
    assert_eq!(sgt(w(1), neg(1)), w(1));
    assert_eq!(sgt(neg(1), neg(2)), w(1));
    assert_eq!(sgt(w(3), w(3)), w(0));
}

#[test]
fn bitwise() {
    assert_eq!(bit_and(w(0b1100), w(0b1010)), w(0b1000));
    assert_eq!(bit_or(w(0b1100), w(0b1010)), w(0b1110));
    assert_eq!(bit_xor(w(0b1100), w(0b1010)), w(0b0110));
    assert_eq!(bit_not(w(0)), Word::max_value());
    assert_eq!(bit_not(Word::max_value()), w(0));
}

#[test]
fn byte_values() {
    assert_eq!(byte(w(31), w(0x1234)), w(0x34));
    assert_eq!(byte(w(30), w(0x1234)), w(0x12));
    assert_eq!(byte(w(0), min_signed()), w(0x80));
    assert_eq!(byte(w(32), Word::max_value()), w(0));
}

#[test]
fn shifts() {
    assert_eq!(shl(w(4), w(1)), w(16));
    assert_eq!(shl(w(255), w(1)), min_signed());
    assert_eq!(shl(w(256), w(1)), w(0));
    assert_eq!(shl(w(64), w(3)), Word::from_limbs([0, 3, 0, 0]));
    assert_eq!(shr(w(4), w(16)), w(1));
    assert_eq!(shr(w(255), min_signed()), w(1));
    assert_eq!(shr(w(256), Word::max_value()), w(0));
}

#[test]
fn arithmetic_shift() {
    assert_eq!(sar(w(1), w(16)), w(8));
    assert_eq!(sar(w(1), neg(16)), neg(8));
    assert_eq!(sar(w(4), neg(1)), neg(1));
    assert_eq!(sar(w(1), neg(3)), neg(2));
    assert_eq!(sar(w(300), neg(5)), Word::max_value());
    assert_eq!(sar(w(300), w(5)), w(0));
    assert_eq!(sar(w(255), min_signed()), neg(1));
}
