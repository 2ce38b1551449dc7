//! The dispatch loop: the machine state, the meaning of one step as a function
//! on a model state, and the interpreter that runs the code step by step.
use vstd::prelude::*;
use crate::arith::{
    add_spec, addmod, addmod_spec, and_spec, bit_and, bit_not, bit_or, bit_xor, byte, byte_spec, div,
    div_spec, eq, eq_spec, exp, exp_spec, gt, gt_spec, is_zero, iszero_spec, lt, lt_spec, mod_spec,
    mul_spec, mulmod, mulmod_spec, not_spec, or_spec, rem, sar, sar_spec, sdiv, sdiv_spec, sgt,
    sgt_spec, shl, shl_spec, shr, shr_spec, signextend, signextend_spec, slt, slt_spec, smod,
    smod_spec, sub_spec, wrapping_add, wrapping_mul, wrapping_sub, xor_spec,
};
use crate::jumpdest::{is_jumpdest, jump_destinations, JUMPDEST, PUSH1, PUSH32};
use crate::u256;
use crate::word::{Word, be_bytes, be_value, lemma_value_limbs, limb_base, word_modulus};

verus! {

pub const STOP: u8 = 0x00;
pub const ADD: u8 = 0x01;
pub const MUL: u8 = 0x02;
pub const SUB: u8 = 0x03;
pub const DIV: u8 = 0x04;
pub const SDIV: u8 = 0x05;
pub const MOD: u8 = 0x06;
pub const SMOD: u8 = 0x07;
pub const ADDMOD: u8 = 0x08;
pub const MULMOD: u8 = 0x09;
pub const EXP: u8 = 0x0a;
pub const SIGNEXTEND: u8 = 0x0b;
pub const LT: u8 = 0x10;
pub const GT: u8 = 0x11;
pub const SLT: u8 = 0x12;
pub const SGT: u8 = 0x13;
pub const EQ: u8 = 0x14;
pub const ISZERO: u8 = 0x15;
pub const AND: u8 = 0x16;
pub const OR: u8 = 0x17;
pub const XOR: u8 = 0x18;
pub const NOT: u8 = 0x19;
pub const BYTE: u8 = 0x1a;
pub const SHL: u8 = 0x1b;
pub const SHR: u8 = 0x1c;
pub const SAR: u8 = 0x1d;
pub const POP: u8 = 0x50;
pub const MLOAD: u8 = 0x51;
pub const MSTORE: u8 = 0x52;
pub const MSTORE8: u8 = 0x53;
pub const JUMP: u8 = 0x56;
pub const JUMPI: u8 = 0x57;
pub const PC: u8 = 0x58;
pub const MSIZE: u8 = 0x59;
pub const GAS: u8 = 0x5a;
pub const PUSH0: u8 = 0x5f;
pub const DUP1: u8 = 0x80;
pub const DUP16: u8 = 0x8f;
pub const SWAP1: u8 = 0x90;
pub const SWAP16: u8 = 0x9f;
pub const INVALID: u8 = 0xfe;

/// Memory accesses that would reach past this many bytes fail.
pub const MEMORY_LIMIT: u64 = 0x400_0000;

/// Why a run ended in failure.
#[derive(Clone, Copy, Debug, PartialEq, Eq)]
pub enum EvmError {
    /// The `INVALID` opcode was reached.
    InvalidOpcode,
    /// A byte that is no instruction of this machine was reached.
    UnknownOpcode,
    /// `JUMP`, or a taken `JUMPI`, to an offset that is not a valid `JUMPDEST`.
    InvalidJumpTarget,
    /// An instruction needed more words than the stack held.
    StackUnderflow,
    /// A memory access reached past the memory limit.
    OutOfBoundsMemoryAccess,
    /// A `PUSH` immediate ran past the end of the code.
    OutOfBoundsCodeAccess,
    /// The run used up its step budget.
    StepLimitExceeded,
}

// ---------------------------------------------------------------------------
// The model
// ---------------------------------------------------------------------------

/// The machine state as numbers and bytes; the last stack entry is the top.
pub struct State {
    pub stack: Seq<nat>,
    pub memory: Seq<u8>,
    pub pc: nat,
}

/// What one step does.
pub enum Step {
    /// Execution goes on from this state.
    Next(State),
    /// Execution ends successfully; the state is unchanged.
    Halt,
    /// Execution ends in failure; the state is unchanged.
    Fail(EvmError),
}

/// The stack entry `i` places below the top.
pub open spec fn top(stack: Seq<nat>, i: nat) -> nat {
    stack[stack.len() - 1 - i]
}

/// The stack with its top `k` entries removed.
pub open spec fn pop_n(stack: Seq<nat>, k: nat) -> Seq<nat> {
    stack.subrange(0, stack.len() - k)
}

/// The state after pushing `v` and moving to the next instruction.
pub open spec fn pushed(s: State, v: nat) -> State {
    State { stack: s.stack.push(v), memory: s.memory, pc: s.pc + 1 }
}

/// The opcodes that pop their operands and push one computed word.
pub open spec fn is_pure_op(op: u8) -> bool {
    (ADD <= op <= SIGNEXTEND) || (LT <= op <= SAR)
}

pub open spec fn pure_arity(op: u8) -> nat {
    if op == ISZERO || op == NOT {
        1
    } else if op == ADDMOD || op == MULMOD {
        3
    } else {
        2
    }
}

/// The word that a pure opcode pushes, given the top three stack entries.
pub open spec fn pure_result(op: u8, a: nat, b: nat, c: nat) -> nat {
    if op == ADD {
        add_spec(a, b)
    } else if op == MUL {
        mul_spec(a, b)
    } else if op == SUB {
        sub_spec(a, b)
    } else if op == DIV {
        div_spec(a, b)
    } else if op == SDIV {
        sdiv_spec(a, b)
    } else if op == MOD {
        mod_spec(a, b)
    } else if op == SMOD {
        smod_spec(a, b)
    } else if op == ADDMOD {
        addmod_spec(a, b, c)
    } else if op == MULMOD {
        mulmod_spec(a, b, c)
    } else if op == EXP {
        exp_spec(a, b)
    } else if op == SIGNEXTEND {
        signextend_spec(a, b)
    } else if op == LT {
        lt_spec(a, b)
    } else if op == GT {
        gt_spec(a, b)
    } else if op == SLT {
        slt_spec(a, b)
    } else if op == SGT {
        sgt_spec(a, b)
    } else if op == EQ {
        eq_spec(a, b)
    } else if op == ISZERO {
        iszero_spec(a)
    } else if op == AND {
        and_spec(a, b)
    } else if op == OR {
        or_spec(a, b)
    } else if op == XOR {
        xor_spec(a, b)
    } else if op == NOT {
        not_spec(a)
    } else if op == BYTE {
        byte_spec(a, b)
    } else if op == SHL {
        shl_spec(a, b)
    } else if op == SHR {
        shr_spec(a, b)
    } else {
        sar_spec(a, b)
    }
}

pub open spec fn pure_step(op: u8, s: State) -> Step {
    if s.stack.len() < pure_arity(op) {
        Step::Fail(EvmError::StackUnderflow)
    } else {
        let r = pure_result(op, top(s.stack, 0), top(s.stack, 1), top(s.stack, 2));
        Step::Next(State { stack: pop_n(s.stack, pure_arity(op)).push(r), memory: s.memory, pc: s.pc + 1 })
    }
}

/// The smallest multiple of 32 that is at least `n`.
pub open spec fn round_up32(n: nat) -> nat {
    ((n + 31) / 32) * 32
}

/// Memory after an access that ends at `end`: grown, with zeros, to cover it.
pub open spec fn grown(memory: Seq<u8>, end: nat) -> Seq<u8> {
    if end <= memory.len() {
        memory
    } else {
        memory + Seq::new((round_up32(end) - memory.len()) as nat, |i: int| 0u8)
    }
}

pub open spec fn mload_step(s: State) -> Step {
    if s.stack.len() < 1 {
        Step::Fail(EvmError::StackUnderflow)
    } else if top(s.stack, 0) + 32 > MEMORY_LIMIT {
        Step::Fail(EvmError::OutOfBoundsMemoryAccess)
    } else {
        let addr = top(s.stack, 0);
        let memory = grown(s.memory, addr + 32);
        let v = be_value(memory.subrange(addr as int, addr + 32int));
        Step::Next(State { stack: pop_n(s.stack, 1).push(v), memory, pc: s.pc + 1 })
    }
}

pub open spec fn mstore_step(s: State) -> Step {
    if s.stack.len() < 2 {
        Step::Fail(EvmError::StackUnderflow)
    } else if top(s.stack, 0) + 32 > MEMORY_LIMIT {
        Step::Fail(EvmError::OutOfBoundsMemoryAccess)
    } else {
        let addr = top(s.stack, 0);
        let g = grown(s.memory, addr + 32);
        let memory = g.subrange(0, addr as int) + be_bytes(top(s.stack, 1), 32) + g.subrange(
            addr + 32int,
            g.len() as int,
        );
        Step::Next(State { stack: pop_n(s.stack, 2), memory, pc: s.pc + 1 })
    }
}

pub open spec fn mstore8_step(s: State) -> Step {
    if s.stack.len() < 2 {
        Step::Fail(EvmError::StackUnderflow)
    } else if top(s.stack, 0) + 1 > MEMORY_LIMIT {
        Step::Fail(EvmError::OutOfBoundsMemoryAccess)
    } else {
        let addr = top(s.stack, 0);
        let memory = grown(s.memory, addr + 1).update(addr as int, (top(s.stack, 1) % 256) as u8);
        Step::Next(State { stack: pop_n(s.stack, 2), memory, pc: s.pc + 1 })
    }
}

pub open spec fn jump_step(code: Seq<u8>, s: State) -> Step {
    if s.stack.len() < 1 {
        Step::Fail(EvmError::StackUnderflow)
    } else if !is_jumpdest(code, top(s.stack, 0)) {
        Step::Fail(EvmError::InvalidJumpTarget)
    } else {
        Step::Next(State { stack: pop_n(s.stack, 1), memory: s.memory, pc: top(s.stack, 0) })
    }
}

pub open spec fn jumpi_step(code: Seq<u8>, s: State) -> Step {
    if s.stack.len() < 2 {
        Step::Fail(EvmError::StackUnderflow)
    } else if top(s.stack, 1) == 0 {
        Step::Next(State { stack: pop_n(s.stack, 2), memory: s.memory, pc: s.pc + 1 })
    } else if !is_jumpdest(code, top(s.stack, 0)) {
        Step::Fail(EvmError::InvalidJumpTarget)
    } else {
        Step::Next(State { stack: pop_n(s.stack, 2), memory: s.memory, pc: top(s.stack, 0) })
    }
}

/// `PUSHn`: the next `n` code bytes, big-endian, and a jump past them.
pub open spec fn push_step(code: Seq<u8>, s: State, n: nat) -> Step {
    if s.pc + 1 + n > code.len() {
        Step::Fail(EvmError::OutOfBoundsCodeAccess)
    } else {
        let v = be_value(code.subrange(s.pc + 1int, s.pc + 1int + n));
        Step::Next(State { stack: s.stack.push(v), memory: s.memory, pc: s.pc + 1 + n })
    }
}

/// `DUPk`: a copy of the entry `k - 1` places below the top.
pub open spec fn dup_step(s: State, k: nat) -> Step {
    if s.stack.len() < k {
        Step::Fail(EvmError::StackUnderflow)
    } else {
        Step::Next(pushed(s, top(s.stack, (k - 1) as nat)))
    }
}

/// `SWAPk`: the top exchanged with the entry `k` places below it.
pub open spec fn swap_step(s: State, k: nat) -> Step {
    if s.stack.len() < k + 1 {
        Step::Fail(EvmError::StackUnderflow)
    } else {
        let n = s.stack.len();
        let stack = s.stack.update(n - 1, top(s.stack, k)).update(n - 1 - k, top(s.stack, 0));
        Step::Next(State { stack, memory: s.memory, pc: s.pc + 1 })
    }
}

/// One step of the machine on `code` from state `s`.
pub open spec fn step(code: Seq<u8>, s: State) -> Step {
    if s.pc >= code.len() {
        Step::Halt
    } else {
        let op = code[s.pc as int];
        if op == STOP {
            Step::Halt
        } else if is_pure_op(op) {
            pure_step(op, s)
        } else if op == POP {
            if s.stack.len() < 1 {
                Step::Fail(EvmError::StackUnderflow)
            } else {
                Step::Next(State { stack: pop_n(s.stack, 1), memory: s.memory, pc: s.pc + 1 })
            }
        } else if op == MLOAD {
            mload_step(s)
        } else if op == MSTORE {
            mstore_step(s)
        } else if op == MSTORE8 {
            mstore8_step(s)
        } else if op == JUMP {
            jump_step(code, s)
        } else if op == JUMPI {
            jumpi_step(code, s)
        } else if op == PC {
            Step::Next(pushed(s, s.pc))
        } else if op == MSIZE {
            Step::Next(pushed(s, s.memory.len()))
        } else if op == GAS {
            Step::Next(pushed(s, (word_modulus() - 1) as nat))
        } else if op == JUMPDEST {
            Step::Next(State { stack: s.stack, memory: s.memory, pc: s.pc + 1 })
        } else if op == PUSH0 {
            Step::Next(pushed(s, 0))
        } else if PUSH1 <= op <= PUSH32 {
            push_step(code, s, (op - PUSH1 + 1) as nat)
        } else if DUP1 <= op <= DUP16 {
            dup_step(s, (op - DUP1 + 1) as nat)
        } else if SWAP1 <= op <= SWAP16 {
            swap_step(s, (op - SWAP1 + 1) as nat)
        } else if op == INVALID {
            Step::Fail(EvmError::InvalidOpcode)
        } else {
            Step::Fail(EvmError::UnknownOpcode)
        }
    }
}

/// Whether the exec result `r` and the state `after` are what `st` says of a
/// step taken from `before`.
pub open spec fn step_done(st: Step, r: Result<bool, EvmError>, before: State, after: State) -> bool {
    match st {
        Step::Next(s2) => r == Ok::<bool, EvmError>(true) && after == s2,
        Step::Halt => r == Ok::<bool, EvmError>(false) && after == before,
        Step::Fail(e) => r == Err::<bool, EvmError>(e) && after == before,
    }
}

// ---------------------------------------------------------------------------
// The machine
// ---------------------------------------------------------------------------

/// The interpreter's working state: the stack (top last), memory and the
/// program counter.
pub struct Machine {
    pub stack: Vec<Word>,
    pub memory: Vec<u8>,
    pub pc: usize,
}

pub open spec fn stack_values(stack: Seq<Word>) -> Seq<nat> {
    stack.map_values(|w: Word| w.value())
}

impl View for Machine {
    type V = State;

    open spec fn view(&self) -> State {
        State { stack: stack_values(self.stack@), memory: self.memory@, pc: self.pc as nat }
    }
}

impl Machine {
    pub open spec fn well_formed(&self, code: Seq<u8>) -> bool {
        self.pc <= code.len() && self.memory@.len() <= MEMORY_LIMIT
    }

    pub fn new() -> (m: Machine)
        ensures
            m@ == (State { stack: Seq::empty(), memory: Seq::empty(), pc: 0 }),
    {
        let m = Machine { stack: Vec::new(), memory: Vec::new(), pc: 0 };
        assert(stack_values(m.stack@) =~= Seq::empty());
        m
    }

    /// Pushes `w`; the rest of the state is kept.
    fn push_word(&mut self, w: Word)
        ensures
            final(self)@.stack == old(self)@.stack.push(w.value()),
            final(self).memory == old(self).memory,
            final(self).pc == old(self).pc,
    {
        self.stack.push(w);
        assert(stack_values(self.stack@) =~= stack_values(old(self).stack@).push(w.value()));
    }

    /// Removes the top `k` words; the rest of the state is kept.
    fn drop_top(&mut self, k: usize)
        requires
            k <= old(self).stack.len(),
        ensures
            final(self)@.stack == pop_n(old(self)@.stack, k as nat),
            final(self).memory == old(self).memory,
            final(self).pc == old(self).pc,
    {
        let n = self.stack.len();
        self.stack.truncate(n - k);
        assert(stack_values(self.stack@) =~= pop_n(stack_values(old(self).stack@), k as nat));
    }

    /// The word `i` places below the top.
    fn peek(&self, i: usize) -> (w: Word)
        requires
            i < self.stack.len(),
        ensures
            w.value() == top(self@.stack, i as nat),
    {
        self.stack[self.stack.len() - 1 - i]
    }

    /// Grows memory with zeros to cover an access that ends at `end`.
    fn grow(&mut self, end: u64)
        requires
            end <= MEMORY_LIMIT,
            old(self).memory.len() <= MEMORY_LIMIT,
        ensures
            final(self).memory@ == grown(old(self).memory@, end as nat),
            final(self).memory.len() <= MEMORY_LIMIT,
            final(self).stack == old(self).stack,
            final(self).pc == old(self).pc,
    {
        if end as usize > self.memory.len() {
            let target = ((end as usize + 31) / 32) * 32;
            while self.memory.len() < target
                invariant
                    target == round_up32(end as nat),
                    target <= MEMORY_LIMIT,
                    old(self).memory.len() <= self.memory.len() <= target,
                    self.memory@ =~= old(self).memory@ + Seq::new(
                        (self.memory.len() - old(self).memory.len()) as nat,
                        |i: int| 0u8,
                    ),
                    self.stack == old(self).stack,
                    self.pc == old(self).pc,
                decreases target - self.memory.len(),
            {
                self.memory.push(0);
            }
        }
    }
}

/// The address of an access of `width` bytes, if it ends within the limit.
fn memory_address(a: Word, width: u64) -> (r: Option<u64>)
    requires
        width <= 32,
    ensures
        a.value() + width <= MEMORY_LIMIT ==> r == Some(a.value() as u64),
        a.value() + width > MEMORY_LIMIT ==> r is None,
{
    match a.to_u64() {
        Some(x) => {
            if x <= MEMORY_LIMIT - width {
                Some(x)
            } else {
                None
            }
        },
        None => None,
    }
}

/// The word a pure opcode computes from the top three stack words.
fn pure_apply(op: u8, a: Word, b: Word, c: Word) -> (r: Word)
    requires
        is_pure_op(op),
    ensures
        r.value() == pure_result(op, a.value(), b.value(), c.value()),
{
    if op == ADD {
        wrapping_add(a, b)
    } else if op == MUL {
        wrapping_mul(a, b)
    } else if op == SUB {
        wrapping_sub(a, b)
    } else if op == DIV {
        div(a, b)
    } else if op == SDIV {
        sdiv(a, b)
    } else if op == MOD {
        rem(a, b)
    } else if op == SMOD {
        smod(a, b)
    } else if op == ADDMOD {
        addmod(a, b, c)
    } else if op == MULMOD {
        mulmod(a, b, c)
    } else if op == EXP {
        exp(a, b)
    } else if op == SIGNEXTEND {
        signextend(a, b)
    } else if op == LT {
        lt(a, b)
    } else if op == GT {
        gt(a, b)
    } else if op == SLT {
        slt(a, b)
    } else if op == SGT {
        sgt(a, b)
    } else if op == EQ {
        eq(a, b)
    } else if op == ISZERO {
        is_zero(a)
    } else if op == AND {
        bit_and(a, b)
    } else if op == OR {
        bit_or(a, b)
    } else if op == XOR {
        bit_xor(a, b)
    } else if op == NOT {
        bit_not(a)
    } else if op == BYTE {
        byte(a, b)
    } else if op == SHL {
        shl(a, b)
    } else if op == SHR {
        shr(a, b)
    } else {
        sar(a, b)
    }
}

fn exec_pure(op: u8, m: &mut Machine) -> (r: Result<bool, EvmError>)
    requires
        is_pure_op(op),
        old(m).pc < usize::MAX,
    ensures
        step_done(pure_step(op, old(m)@), r, old(m)@, final(m)@),
        final(m).memory == old(m).memory,
{
    let arity: usize = if op == ISZERO || op == NOT {
        1
    } else if op == ADDMOD || op == MULMOD {
        3
    } else {
        2
    };
    let n = m.stack.len();
    if n < arity {
        return Err(EvmError::StackUnderflow);
    }
    let a = m.peek(0);
    let b = if arity >= 2 {
        m.peek(1)
    } else {
        a
    };
    let c = if arity >= 3 {
        m.peek(2)
    } else {
        a
    };
    let r = pure_apply(op, a, b, c);
    m.drop_top(arity);
    m.push_word(r);
    m.pc = m.pc + 1;
    Ok(true)
}


fn exec_mload(m: &mut Machine) -> (r: Result<bool, EvmError>)
    requires
        old(m).pc < usize::MAX,
        old(m).memory.len() <= MEMORY_LIMIT,
    ensures
        step_done(mload_step(old(m)@), r, old(m)@, final(m)@),
        final(m).memory.len() <= MEMORY_LIMIT,
{
    if m.stack.len() < 1 {
        return Err(EvmError::StackUnderflow);
    }
    let addr = match memory_address(m.peek(0), 32) {
        Some(a) => a,
        None => {
            return Err(EvmError::OutOfBoundsMemoryAccess);
        },
    };
    m.grow(addr + 32);
    let start = addr as usize;
    let mut bytes: Vec<u8> = Vec::new();
    let mut i: usize = 0;
    while i < 32
        invariant
            i <= 32,
            start + 32 <= m.memory.len(),
            bytes@ =~= m.memory@.subrange(start as int, start + i),
        decreases 32 - i,
    {
        bytes.push(m.memory[start + i]);
        i = i + 1;
    }
    let v = u256::from_big_endian(bytes.as_slice());
    m.drop_top(1);
    m.push_word(v);
    m.pc = m.pc + 1;
    Ok(true)
}

fn exec_mstore(m: &mut Machine) -> (r: Result<bool, EvmError>)
    requires
        old(m).pc < usize::MAX,
        old(m).memory.len() <= MEMORY_LIMIT,
    ensures
        step_done(mstore_step(old(m)@), r, old(m)@, final(m)@),
        final(m).memory.len() <= MEMORY_LIMIT,
{
    if m.stack.len() < 2 {
        return Err(EvmError::StackUnderflow);
    }
    let addr = match memory_address(m.peek(0), 32) {
        Some(a) => a,
        None => {
            return Err(EvmError::OutOfBoundsMemoryAccess);
        },
    };
    let bytes = u256::to_big_endian(m.peek(1));
    m.grow(addr + 32);
    let ghost g = m.memory@;
    let start = addr as usize;
    let mut i: usize = 0;
    while i < 32
        invariant
            i <= 32,
            start + 32 <= g.len(),
            g.len() <= MEMORY_LIMIT,
            m.memory@.len() == g.len(),
            bytes@.len() == 32,
            m.memory@ =~= g.subrange(0, start as int) + bytes@.subrange(0, i as int) + g.subrange(
                start + i,
                g.len() as int,
            ),
            m.stack == old(m).stack,
            m.pc == old(m).pc,
        decreases 32 - i,
    {
        m.memory.set(start + i, bytes[i]);
        i = i + 1;
    }
    assert(bytes@.subrange(0, 32) =~= bytes@);
    m.drop_top(2);
    m.pc = m.pc + 1;
    Ok(true)
}

fn exec_mstore8(m: &mut Machine) -> (r: Result<bool, EvmError>)
    requires
        old(m).pc < usize::MAX,
        old(m).memory.len() <= MEMORY_LIMIT,
    ensures
        step_done(mstore8_step(old(m)@), r, old(m)@, final(m)@),
        final(m).memory.len() <= MEMORY_LIMIT,
{
    if m.stack.len() < 2 {
        return Err(EvmError::StackUnderflow);
    }
    let addr = match memory_address(m.peek(0), 1) {
        Some(a) => a,
        None => {
            return Err(EvmError::OutOfBoundsMemoryAccess);
        },
    };
    let v = m.peek(1);
    let low = (v.limbs[0] & 0xff) as u8;
    proof {
        lemma_value_limbs(v);
        lemma_low_byte_of_word(v.value(), v.limbs[0]);
    }
    m.grow(addr + 1);
    m.memory.set(addr as usize, low);
    m.drop_top(2);
    m.pc = m.pc + 1;
    Ok(true)
}

/// Whether the word names a valid jump target, looked up in the marks that
/// the jump analysis made.
fn valid_target(marks: &Vec<bool>, code: &[u8], t: Word) -> (r: Option<usize>)
    requires
        marks@.len() == code@.len(),
        forall|i: int| 0 <= i < code@.len() ==> marks@[i] == is_jumpdest(code@, i as nat),
    ensures
        r is Some <==> is_jumpdest(code@, t.value()),
        r is Some ==> r.unwrap() == t.value(),
{
    let n = marks.len();
    match t.to_u64() {
        Some(x) => {
            if x < n as u64 {
                let i = x as usize;
                if marks[i] {
                    Some(i)
                } else {
                    None
                }
            } else {
                None
            }
        },
        None => None,
    }
}

fn exec_jump(marks: &Vec<bool>, code: &[u8], m: &mut Machine) -> (r: Result<bool, EvmError>)
    requires
        marks@.len() == code@.len(),
        forall|i: int| 0 <= i < code@.len() ==> marks@[i] == is_jumpdest(code@, i as nat),
    ensures
        step_done(jump_step(code@, old(m)@), r, old(m)@, final(m)@),
        final(m).memory == old(m).memory,
        final(m).pc <= code@.len() || final(m).pc == old(m).pc,
{
    if m.stack.len() < 1 {
        return Err(EvmError::StackUnderflow);
    }
    match valid_target(marks, code, m.peek(0)) {
        Some(t) => {
            m.drop_top(1);
            m.pc = t;
            Ok(true)
        },
        None => Err(EvmError::InvalidJumpTarget),
    }
}

fn exec_jumpi(marks: &Vec<bool>, code: &[u8], m: &mut Machine) -> (r: Result<bool, EvmError>)
    requires
        old(m).pc < code@.len(),
        old(m).pc < usize::MAX,
        marks@.len() == code@.len(),
        forall|i: int| 0 <= i < code@.len() ==> marks@[i] == is_jumpdest(code@, i as nat),
    ensures
        step_done(jumpi_step(code@, old(m)@), r, old(m)@, final(m)@),
        final(m).memory == old(m).memory,
        final(m).pc <= code@.len(),
{
    if m.stack.len() < 2 {
        return Err(EvmError::StackUnderflow);
    }
    if m.peek(1).is_zero() {
        m.drop_top(2);
        m.pc = m.pc + 1;
        return Ok(true);
    }
    match valid_target(marks, code, m.peek(0)) {
        Some(t) => {
            m.drop_top(2);
            m.pc = t;
            Ok(true)
        },
        None => Err(EvmError::InvalidJumpTarget),
    }
}

fn exec_push(code: &[u8], n: usize, m: &mut Machine) -> (r: Result<bool, EvmError>)
    requires
        1 <= n <= 32,
        old(m).pc < code@.len(),
    ensures
        step_done(push_step(code@, old(m)@, n as nat), r, old(m)@, final(m)@),
        final(m).memory == old(m).memory,
        final(m).pc <= code@.len(),
{
    let len = code.len();
    let start = m.pc + 1;
    if n > len - start {
        return Err(EvmError::OutOfBoundsCodeAccess);
    }
    let mut bytes: Vec<u8> = Vec::new();
    let mut i: usize = 0;
    while i < n
        invariant
            i <= n,
            len == code@.len(),
            start + n <= len,
            bytes@ =~= code@.subrange(start as int, start + i),
        decreases n - i,
    {
        bytes.push(code[start + i]);
        i = i + 1;
    }
    let v = u256::from_big_endian(bytes.as_slice());
    m.push_word(v);
    m.pc = start + n;
    Ok(true)
}

fn exec_dup(k: usize, m: &mut Machine) -> (r: Result<bool, EvmError>)
    requires
        1 <= k <= 16,
        old(m).pc < usize::MAX,
    ensures
        step_done(dup_step(old(m)@, k as nat), r, old(m)@, final(m)@),
        final(m).memory == old(m).memory,
{
    if m.stack.len() < k {
        return Err(EvmError::StackUnderflow);
    }
    let w = m.peek(k - 1);
    m.push_word(w);
    m.pc = m.pc + 1;
    Ok(true)
}

fn exec_swap(k: usize, m: &mut Machine) -> (r: Result<bool, EvmError>)
    requires
        1 <= k <= 16,
        old(m).pc < usize::MAX,
    ensures
        step_done(swap_step(old(m)@, k as nat), r, old(m)@, final(m)@),
        final(m).memory == old(m).memory,
{
    let n = m.stack.len();
    if n < k + 1 {
        return Err(EvmError::StackUnderflow);
    }
    let first = m.stack[n - 1];
    let other = m.stack[n - 1 - k];
    m.stack.set(n - 1, other);
    m.stack.set(n - 1 - k, first);
    m.pc = m.pc + 1;
    proof {
        let s = old(m)@.stack;
        assert(stack_values(m.stack@) =~= s.update(n - 1, top(s, k as nat)).update(n - 1 - k, top(s, 0)));
    }
    Ok(true)
}

/// Runs one instruction.  `Ok(true)`: execution goes on; `Ok(false)`: it has
/// ended successfully; `Err`: it has failed.  Unless execution goes on, the
/// machine is left as it was.
pub fn step_machine(code: &[u8], marks: &Vec<bool>, m: &mut Machine) -> (r: Result<bool, EvmError>)
    requires
        old(m).well_formed(code@),
        marks@.len() == code@.len(),
        forall|i: int| 0 <= i < code@.len() ==> marks@[i] == is_jumpdest(code@, i as nat),
    ensures
        step_done(step(code@, old(m)@), r, old(m)@, final(m)@),
        final(m).well_formed(code@),
{
    if m.pc >= code.len() {
        return Ok(false);
    }
    let op = code[m.pc];
    if op == STOP {
        Ok(false)
    } else if (ADD <= op && op <= SIGNEXTEND) || (LT <= op && op <= SAR) {
        exec_pure(op, m)
    } else if op == POP {
        if m.stack.len() < 1 {
            return Err(EvmError::StackUnderflow);
        }
        m.drop_top(1);
        m.pc = m.pc + 1;
        Ok(true)
    } else if op == MLOAD {
        exec_mload(m)
    } else if op == MSTORE {
        exec_mstore(m)
    } else if op == MSTORE8 {
        exec_mstore8(m)
    } else if op == JUMP {
        exec_jump(marks, code, m)
    } else if op == JUMPI {
        exec_jumpi(marks, code, m)
    } else if op == PC {
        let w = Word::from_u64(m.pc as u64);
        m.push_word(w);
        m.pc = m.pc + 1;
        Ok(true)
    } else if op == MSIZE {
        let w = Word::from_u64(m.memory.len() as u64);
        m.push_word(w);
        m.pc = m.pc + 1;
        Ok(true)
    } else if op == GAS {
        m.push_word(Word::max_value());
        m.pc = m.pc + 1;
        Ok(true)
    } else if op == JUMPDEST {
        m.pc = m.pc + 1;
        Ok(true)
    } else if op == PUSH0 {
        m.push_word(Word::zero());
        m.pc = m.pc + 1;
        Ok(true)
    } else if PUSH1 <= op && op <= PUSH32 {
        exec_push(code, (op - PUSH1 + 1) as usize, m)
    } else if DUP1 <= op && op <= DUP16 {
        exec_dup((op - DUP1 + 1) as usize, m)
    } else if SWAP1 <= op && op <= SWAP16 {
        exec_swap((op - SWAP1 + 1) as usize, m)
    } else if op == INVALID {
        Err(EvmError::InvalidOpcode)
    } else {
        Err(EvmError::UnknownOpcode)
    }
}

/// The low byte of a word is the low byte of its lowest limb.
proof fn lemma_low_byte_of_word(v: nat, l0: u64)
    requires
        v % limb_base() == l0,
    ensures
        (l0 & 0xff) as u8 == (v % 256) as u8,
{
    assert(l0 & 0xff == l0 % 256) by (bit_vector);
    vstd::arithmetic::div_mod::lemma_mod_mod(v as int, 256, 0x100_0000_0000_0000);
}


// ---------------------------------------------------------------------------
// Running the code
// ---------------------------------------------------------------------------

/// The state a run starts from: empty stack, empty memory, offset 0.
pub open spec fn initial_state() -> State {
    State { stack: Seq::empty(), memory: Seq::empty(), pc: 0 }
}

/// Where a run of at most `fuel` steps from `s` ends: the last state, and why
/// it failed, if it did.
pub open spec fn run_spec(code: Seq<u8>, s: State, fuel: nat) -> (State, Option<EvmError>)
    decreases fuel,
{
    if fuel == 0 {
        (s, Some(EvmError::StepLimitExceeded))
    } else {
        match step(code, s) {
            Step::Next(s2) => run_spec(code, s2, (fuel - 1) as nat),
            Step::Halt => (s, None),
            Step::Fail(e) => (s, Some(e)),
        }
    }
}

/// A stack listed from the top down.
pub open spec fn top_first(stack: Seq<nat>) -> Seq<nat> {
    Seq::new(stack.len(), |i: int| stack[stack.len() - 1 - i])
}

/// What a run hands back: the final stack, top first, and whether it succeeded.
pub struct EvmResult {
    pub stack: Vec<Word>,
    pub success: bool,
    /// Why the run failed; `None` exactly when it succeeded.
    pub error: Option<EvmError>,
}

/// What the result of running `code` for at most `max_steps` steps must be.
pub open spec fn result_of(code: Seq<u8>, max_steps: nat, r: EvmResult) -> bool {
    let (last, error) = run_spec(code, initial_state(), max_steps);
    &&& stack_values(r.stack@) == top_first(last.stack)
    &&& r.error == error
    &&& r.success == (error is None)
}

/// The stack's words listed from the top down.
fn stack_top_first(stack: &Vec<Word>) -> (r: Vec<Word>)
    ensures
        stack_values(r@) == top_first(stack_values(stack@)),
{
    let n = stack.len();
    let mut r: Vec<Word> = Vec::new();
    let mut i: usize = n;
    while i > 0
        invariant
            i <= n,
            n == stack@.len(),
            r@.len() == n - i,
            forall|j: int| 0 <= j < r@.len() ==> r@[j] == stack@[n - 1 - j],
        decreases i,
    {
        i = i - 1;
        r.push(stack[i]);
    }
    assert(stack_values(r@) =~= top_first(stack_values(stack@)));
    r
}

/// Runs `code` from an empty machine until it stops, fails, or has taken
/// `max_steps` steps.
pub fn run(code: &[u8], max_steps: u64) -> (r: EvmResult)
    ensures
        result_of(code@, max_steps as nat, r),
{
    let marks = jump_destinations(code);
    let mut m = Machine::new();
    let mut steps: u64 = 0;
    while steps < max_steps
        invariant
            steps <= max_steps,
            m.well_formed(code@),
            marks@.len() == code@.len(),
            forall|i: int| 0 <= i < code@.len() ==> marks@[i] == is_jumpdest(code@, i as nat),
            run_spec(code@, m@, (max_steps - steps) as nat) == run_spec(code@, initial_state(), max_steps as nat),
        decreases max_steps - steps,
    {
        match step_machine(code, &marks, &mut m) {
            Ok(true) => {},
            Ok(false) => {
                return EvmResult { stack: stack_top_first(&m.stack), success: true, error: None };
            },
            Err(e) => {
                return EvmResult { stack: stack_top_first(&m.stack), success: false, error: Some(e) };
            },
        }
        steps = steps + 1;
    }
    EvmResult {
        stack: stack_top_first(&m.stack),
        success: false,
        error: Some(EvmError::StepLimitExceeded),
    }
}

/// Runs `code` to the end with no step budget to speak of (2^64 - 1 steps).
pub fn evm(code: &[u8]) -> (r: EvmResult)
    ensures
        result_of(code@, u64::MAX as nat, r),
{
    run(code, u64::MAX)
}

} // verus!
