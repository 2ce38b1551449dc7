use evm::{evm, run, EvmError, Word};

fn w(x: u64) -> Word {
    Word::from_u64(x)
}

#[test]
fn scenario_push_push_add() {
    let r = evm(&[0x60, 0x05, 0x60, 0x03, 0x01]);
    assert!(r.success);
    assert_eq!(r.stack, vec![w(8)]);
    assert_eq!(r.error, None);
}

#[test]
fn scenario_division_by_zero() {
    let r = evm(&[0x60, 0x00, 0x60, 0x01, 0x04]);
    assert!(r.success);
    assert_eq!(r.stack, vec![w(0)]);
}

#[test]
fn scenario_jump_to_non_jumpdest() {
    let r = evm(&[0x60, 0x0a, 0x56]);
    assert!(!r.success);
    assert_eq!(r.error, Some(EvmError::InvalidJumpTarget));
}

#[test]
fn scenario_mload_grows_memory() {
    let r = evm(&[0x60, 0x20, 0x51]);
    assert!(r.success);
    assert_eq!(r.stack, vec![w(0)]);
    // MSIZE after the load shows the growth to 64 bytes.
    let r = evm(&[0x60, 0x20, 0x51, 0x59]);
    assert_eq!(r.stack, vec![w(64), w(0)]);
}

#[test]
fn scenario_invalid() {
    let r = evm(&[0xfe]);
    assert!(!r.success);
    assert!(r.stack.is_empty());
    assert_eq!(r.error, Some(EvmError::InvalidOpcode));
}

#[test]
fn scenario_swap_then_add() {
    let r = evm(&[0x60, 0x01, 0x60, 0x03, 0x90, 0x01]);
    assert!(r.success);
    assert_eq!(r.stack, vec![w(4)]);
}

#[test]
fn empty_code_succeeds() {
    let r = evm(&[]);
    assert!(r.success);
    assert!(r.stack.is_empty());
}

#[test]
fn stop_keeps_stack() {
    let r = evm(&[0x60, 0x07, 0x00, 0x60, 0x08]);
    assert!(r.success);
    assert_eq!(r.stack, vec![w(7)]);
}

#[test]
fn stack_is_listed_top_first() {
    let r = evm(&[0x60, 0x01, 0x60, 0x02, 0x60, 0x03]);
    assert_eq!(r.stack, vec![w(3), w(2), w(1)]);
}

#[test]
fn sub_takes_top_as_left_operand() {
    // PUSH1 3, PUSH1 10, SUB: 10 - 3
    let r = evm(&[0x60, 0x03, 0x60, 0x0a, 0x03]);
    assert_eq!(r.stack, vec![w(7)]);
}

#[test]
fn push32_reads_all_bytes() {
    let mut code = vec![0x7f];
    for i in 0..32u8 {
        code.push(i + 1);
    }
    let r = evm(&code);
    assert!(r.success);
    let expected = Word::from_limbs([
        0x191a1b1c1d1e1f20,
        0x1112131415161718,
        0x090a0b0c0d0e0f10,
        0x0102030405060708,
    ]);
    assert_eq!(r.stack, vec![expected]);
}

#[test]
fn push2_is_big_endian() {
    let r = evm(&[0x61, 0x01, 0x02]);
    assert_eq!(r.stack, vec![w(0x0102)]);
}

#[test]
fn push0_pushes_zero() {
    let r = evm(&[0x60, 0x05, 0x5f]);
    assert_eq!(r.stack, vec![w(0), w(5)]);
}

#[test]
fn truncated_push_fails() {
    let r = evm(&[0x60, 0x01, 0x62, 0x01, 0x02]);
    assert!(!r.success);
    assert_eq!(r.error, Some(EvmError::OutOfBoundsCodeAccess));
    assert_eq!(r.stack, vec![w(1)]);
}

#[test]
fn stack_underflow_fails() {
    let r = evm(&[0x60, 0x01, 0x01]);
    assert!(!r.success);
    assert_eq!(r.error, Some(EvmError::StackUnderflow));
    assert_eq!(r.stack, vec![w(1)]);
}

#[test]
fn pop_on_empty_stack_fails() {
    let r = evm(&[0x50]);
    assert_eq!(r.error, Some(EvmError::StackUnderflow));
}

#[test]
fn unknown_opcode_fails() {
    let r = evm(&[0x60, 0x01, 0x0c]);
    assert!(!r.success);
    assert_eq!(r.error, Some(EvmError::UnknownOpcode));
    assert_eq!(r.stack, vec![w(1)]);
}

#[test]
fn memory_past_limit_fails() {
    // PUSH4 0xffffffff, MLOAD
    let r = evm(&[0x63, 0xff, 0xff, 0xff, 0xff, 0x51]);
    assert!(!r.success);
    assert_eq!(r.error, Some(EvmError::OutOfBoundsMemoryAccess));
}

#[test]
fn step_limit_stops_a_loop() {
    // JUMPDEST, PUSH1 0, JUMP: loops forever
    let r = run(&[0x5b, 0x60, 0x00, 0x56], 100);
    assert!(!r.success);
    assert_eq!(r.error, Some(EvmError::StepLimitExceeded));
}

#[test]
fn jump_to_jumpdest() {
    // PUSH1 4, JUMP, INVALID, JUMPDEST, PUSH1 1
    let r = evm(&[0x60, 0x04, 0x56, 0xfe, 0x5b, 0x60, 0x01]);
    assert!(r.success);
    assert_eq!(r.stack, vec![w(1)]);
}

#[test]
fn jump_into_push_immediate_fails() {
    // PUSH1 3, JUMP, PUSH1 0x5b: offset 4 holds 0x5b but is immediate data.
    let r = evm(&[0x60, 0x04, 0x56, 0x60, 0x5b]);
    assert!(!r.success);
    assert_eq!(r.error, Some(EvmError::InvalidJumpTarget));
}

#[test]
fn jumpi_taken_and_not_taken() {
    // PUSH1 1, PUSH1 6, JUMPI, INVALID, INVALID, INVALID... JUMPDEST at 6
    let r = evm(&[0x60, 0x01, 0x60, 0x06, 0x57, 0xfe, 0x5b, 0x60, 0x09]);
    assert!(r.success);
    assert_eq!(r.stack, vec![w(9)]);
    // Condition 0 with an invalid target: falls through.
    let r = evm(&[0x60, 0x00, 0x60, 0x63, 0x57, 0x60, 0x02]);
    assert!(r.success);
    assert_eq!(r.stack, vec![w(2)]);
    // Condition nonzero with an invalid target: fails.
    let r = evm(&[0x60, 0x02, 0x60, 0x63, 0x57]);
    assert_eq!(r.error, Some(EvmError::InvalidJumpTarget));
}

#[test]
fn dup_and_swap_deep() {
    // PUSH1 1, PUSH1 2, PUSH1 3, DUP3
    let r = evm(&[0x60, 0x01, 0x60, 0x02, 0x60, 0x03, 0x82]);
    assert_eq!(r.stack, vec![w(1), w(3), w(2), w(1)]);
    // PUSH1 1, PUSH1 2, PUSH1 3, SWAP2
    let r = evm(&[0x60, 0x01, 0x60, 0x02, 0x60, 0x03, 0x91]);
    assert_eq!(r.stack, vec![w(1), w(2), w(3)]);
    // SWAP2 needs three words.
    let r = evm(&[0x60, 0x01, 0x60, 0x02, 0x91]);
    assert_eq!(r.error, Some(EvmError::StackUnderflow));
}

#[test]
fn mstore_then_mload() {
    // PUSH2 0x1234, PUSH1 0, MSTORE, PUSH1 0, MLOAD, MSIZE
    let r = evm(&[0x61, 0x12, 0x34, 0x60, 0x00, 0x52, 0x60, 0x00, 0x51, 0x59]);
    assert!(r.success);
    assert_eq!(r.stack, vec![w(32), w(0x1234)]);
}

#[test]
fn mstore8_writes_low_byte() {
    // PUSH2 0xabcd, PUSH1 31, MSTORE8, PUSH1 0, MLOAD
    let r = evm(&[0x61, 0xab, 0xcd, 0x60, 0x1f, 0x53, 0x60, 0x00, 0x51]);
    assert_eq!(r.stack, vec![w(0xcd)]);
    // PUSH2 0xabcd, PUSH1 0, MSTORE8, PUSH1 0, MLOAD: byte lands on top
    let r = evm(&[0x61, 0xab, 0xcd, 0x60, 0x00, 0x53, 0x60, 0x00, 0x51]);
    assert_eq!(r.stack, vec![Word::from_limbs([0, 0, 0, 0xcd00_0000_0000_0000])]);
}

#[test]
fn unaligned_mload_rounds_memory_up() {
    // PUSH1 0x39, MLOAD, POP, MSIZE
    let r = evm(&[0x60, 0x39, 0x51, 0x50, 0x59]);
    assert_eq!(r.stack, vec![w(96)]);
}

#[test]
fn pc_and_gas() {
    let r = evm(&[0x5b, 0x58, 0x5a]);
    assert_eq!(r.stack, vec![Word::max_value(), w(1)]);
}

#[test]
fn addmod_and_mulmod_through_the_machine() {
    // PUSH1 7, PUSH1 5, PUSH1 4, ADDMOD: (4 + 5) % 7
    let r = evm(&[0x60, 0x07, 0x60, 0x05, 0x60, 0x04, 0x08]);
    assert_eq!(r.stack, vec![w(2)]);
    let r = evm(&[0x60, 0x07, 0x60, 0x05, 0x60, 0x04, 0x09]);
    assert_eq!(r.stack, vec![w(6)]);
}

#[test]
fn exp_through_the_machine() {
    // PUSH1 10, PUSH1 2, EXP: 2 ** 10
    let r = evm(&[0x60, 0x0a, 0x60, 0x02, 0x0a]);
    assert_eq!(r.stack, vec![w(1024)]);
}
