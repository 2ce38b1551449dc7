//! Jump analysis: which offsets of the code are `JUMPDEST` instructions, as
//! opposed to bytes inside the immediate of a `PUSH`.
use vstd::prelude::*;

verus! {

pub const JUMPDEST: u8 = 0x5b;
pub const PUSH1: u8 = 0x60;
pub const PUSH32: u8 = 0x7f;

/// How many immediate bytes follow the opcode `op`: `n` for `PUSHn`, else none.
pub open spec fn immediate_len(op: u8) -> nat {
    if PUSH1 <= op <= PUSH32 {
        (op - PUSH1 + 1) as nat
    } else {
        0
    }
}

/// The offset of the instruction after the one that starts at `p`.
pub open spec fn next_insn(code: Seq<u8>, p: nat) -> nat {
    p + 1 + immediate_len(code[p as int])
}

/// Whether stepping instruction by instruction from offset `from` lands on `t`.
pub open spec fn reaches(code: Seq<u8>, from: nat, t: nat) -> bool
    decreases t - from,
{
    if from > t || from >= code.len() {
        false
    } else if from == t {
        true
    } else if next_insn(code, from) > t {
        false
    } else {
        reaches(code, next_insn(code, from), t)
    }
}

/// Whether an instruction starts at offset `t`.
pub open spec fn is_insn_start(code: Seq<u8>, t: nat) -> bool {
    reaches(code, 0, t)
}

/// Whether `t` is a valid jump target: a `JUMPDEST` opcode that is an instruction.
pub open spec fn is_jumpdest(code: Seq<u8>, t: nat) -> bool {
    t < code.len() && code[t as int] == JUMPDEST && is_insn_start(code, t)
}

/// One forward pass over the code marks every valid jump target, stepping
/// over `PUSH` immediates; an immediate cut short by the end of the code ends
/// the pass.
pub fn jump_destinations(code: &[u8]) -> (marks: Vec<bool>)
    ensures
        marks@.len() == code@.len(),
        forall|t: int| 0 <= t < code@.len() ==> marks@[t] == is_jumpdest(code@, t as nat),
{
    let n = code.len();
    let mut marks: Vec<bool> = Vec::new();
    while marks.len() < n
        invariant
            marks@.len() <= n,
            forall|t: int| 0 <= t < marks@.len() ==> marks@[t] == false,
        decreases n - marks@.len(),
    {
        marks.push(false);
    }
    let mut pc: usize = 0;
    while pc < n
        invariant
            n == code@.len(),
            marks@.len() == n,
            pc <= n,
            forall|t: int| 0 <= t < pc ==> marks@[t] == is_jumpdest(code@, t as nat),
            forall|t: int| pc <= t < n ==> marks@[t] == false,
            forall|t: nat| pc <= t ==> #[trigger] reaches(code@, 0, t) == reaches(code@, pc as nat, t),
        decreases n - pc,
    {
        let op = code[pc];
        if op == JUMPDEST {
            marks.set(pc, true);
        }
        let width: usize = if PUSH1 <= op && op <= PUSH32 {
            (op - PUSH1 + 1) as usize
        } else {
            0
        };
        let next: usize = if width >= n - pc {
            n
        } else {
            pc + 1 + width
        };
        proof {
            assert forall|t: nat| next <= t implies #[trigger] reaches(code@, 0, t) == reaches(code@, next as nat, t) by {
                if next < n {
                    assert(reaches(code@, pc as nat, t) == reaches(code@, next as nat, t));
                } else {
                    assert(!reaches(code@, next_insn(code@, pc as nat), t));
                    assert(!reaches(code@, pc as nat, t));
                    assert(!reaches(code@, next as nat, t));
                }
            }
            assert forall|t: int| pc < t < next implies !#[trigger] reaches(code@, 0, t as nat) by {
                assert(reaches(code@, pc as nat, t as nat) == reaches(code@, next_insn(code@, pc as nat), t as nat));
            }
            assert(reaches(code@, 0, pc as nat));
        }
        pc = next;
    }
    marks
}

/// Two instruction starts reached from one place are met in order: from the
/// earlier one, the walk still reaches the later one past its own immediate.
pub proof fn lemma_walk_in_order(code: Seq<u8>, s: nat, p: nat, t: nat)
    requires
        reaches(code, s, p),
        reaches(code, s, t),
        p < t,
    ensures
        reaches(code, next_insn(code, p), t),
    decreases p - s,
{
    if s < p {
        lemma_walk_in_order(code, next_insn(code, s), p, t);
    }
}

/// A byte inside the immediate of a `PUSH` is never a jump target, whatever
/// its value.
pub proof fn lemma_immediate_not_jumpdest(code: Seq<u8>, p: nat, t: nat)
    requires
        is_insn_start(code, p),
        p < t < next_insn(code, p),
    ensures
        !is_jumpdest(code, t),
{
    if is_insn_start(code, t) {
        lemma_walk_in_order(code, 0, p, t);
    }
}

} // verus!
