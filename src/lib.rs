//! A small interpreter for an EVM-style bytecode: 256-bit words on an operand
//! stack, byte-addressed memory that grows in 32-byte steps, and jumps that must
//! land on a `JUMPDEST` that is a real instruction.
pub mod word;
pub mod u256;
pub mod arith;
pub mod laws;
pub mod jumpdest;
pub mod machine;

pub use machine::{evm, run, EvmError, EvmResult};
pub use word::Word;
