//! The opcode handlers: arithmetic, comparison and bitwise operations;
//! PUSH, DUP and SWAP; SLOAD and SSTORE.

pub mod arithmetic;
pub mod stack_ops;
pub mod storage_ops;
