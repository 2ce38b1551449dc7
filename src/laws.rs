//! Facts that relate the arithmetic operations to each other, proved over the
//! same definitions that the operations' contracts use.
use vstd::prelude::*;
use vstd::arithmetic::div_mod::{lemma_fundamental_div_mod_converse, lemma_mod_bound, lemma_mod_multiples_vanish, lemma_small_mod};
use vstd::arithmetic::power2::{lemma_pow2_adds, lemma_pow2_pos, pow2};
use crate::arith::{add_spec, div_spec, exp_spec, mod_spec, sdiv_spec, signextend_spec, smod_spec, sub_spec};
use crate::jumpdest::{is_insn_start, lemma_immediate_not_jumpdest, next_insn};
use crate::machine::{EvmError, JUMP, State, Step, step, top};
use crate::word::{lemma_pow2_word, word_modulus};

verus! {

/// Subtraction undoes addition: adding `b` and then subtracting it again gives
/// back `a`, whatever wrapped in between.
pub proof fn lemma_add_then_sub(a: nat, b: nat)
    requires
        a < word_modulus(),
        b < word_modulus(),
    ensures
        sub_spec(add_spec(a, b), b) == a,
{
    let m = word_modulus() as int;
    if a + b < m {
        lemma_small_mod((a + b) as nat, word_modulus());
        lemma_small_mod(a, word_modulus());
    } else {
        lemma_fundamental_div_mod_converse((a + b) as int, m, 1, a + b - m);
        lemma_fundamental_div_mod_converse(a + b - m - b, m, -1, a as int);
    }
}

/// Dividing by zero never faults: the four divisions all give zero.
pub proof fn lemma_division_by_zero(a: nat)
    ensures
        div_spec(a, 0) == 0,
        mod_spec(a, 0) == 0,
        sdiv_spec(a, 0) == 0,
        smod_spec(a, 0) == 0,
{
}

/// Anything, zero included, to the power zero is one.
pub proof fn lemma_exp_zero(a: nat)
    ensures
        exp_spec(a, 0) == 1,
{
    vstd::arithmetic::power::lemma_pow0(a as int);
    lemma_small_mod(1, word_modulus());
}

/// Sign extension from a given byte is idempotent.
pub proof fn lemma_signextend_idempotent(b: nat, x: nat)
    requires
        x < word_modulus(),
    ensures
        signextend_spec(b, signextend_spec(b, x)) == signextend_spec(b, x),
{
    if b < 32 {
        let t = 8 * (b + 1);
        let s = (256 - t) as nat;
        let p = pow2(t) as int;
        let low = x % pow2(t);
        lemma_pow2_word();
        lemma_pow2_pos(t);
        lemma_pow2_pos(s);
        lemma_pow2_adds(t, s);
        lemma_mod_bound(x as int, p);
        let y = signextend_spec(b, x);
        if low >= pow2((t - 1) as nat) {
            let k = pow2(s) - 1;
            assert(word_modulus() - p == p * k) by (nonlinear_arith)
                requires
                    word_modulus() == p * pow2(s),
                    k == pow2(s) - 1,
            ;
            assert(y == p * k + low);
            lemma_mod_multiples_vanish(k, low as int, p);
            lemma_small_mod(low, pow2(t));
        } else {
            lemma_small_mod(low, pow2(t));
        }
    }
}

/// Bytes inside a `PUSH` immediate are data: a `JUMP` to one of them fails,
/// even where the byte has the `JUMPDEST` value.
pub proof fn lemma_jump_into_immediate_fails(code: Seq<u8>, s: State, p: nat)
    requires
        is_insn_start(code, p),
        p < top(s.stack, 0) < next_insn(code, p),
        s.pc < code.len(),
        code[s.pc as int] == JUMP,
        s.stack.len() >= 1,
    ensures
        step(code, s) == Step::Fail(EvmError::InvalidJumpTarget),
{
    lemma_immediate_not_jumpdest(code, p, top(s.stack, 0));
}

} // verus!
