//! The error taxonomy surfaced to callers of the machine.
//!
//! Every error is terminal for the `execute` call that raised it; prior
//! mutations of the stack and of storage are not rolled back.

use vstd::prelude::*;

verus! {

/// Everything that can go wrong while executing bytecode, plus the
/// error of the hex input helper.
#[derive(Debug)]
pub enum EvmError {
    /// A push onto a full stack of 1024 entries.
    StackOverflow,
    /// A pop, read or swap asking for more entries than the stack holds.
    StackUnderflow,
    /// An opcode byte that names no operation.
    InvalidOpcode(u8),
    /// A PUSH whose payload would extend past the end of the bytecode.
    InvalidPush,
    /// A DUP asking deeper than the stack holds.
    InvalidDup,
    /// A SWAP asking deeper than the stack holds.
    InvalidSwap,
    /// Reserved for memory opcodes; nothing raises it yet.
    MemoryOutOfBounds,
    /// A malformed hex input string, with a short description.
    InvalidHex(String),
}

impl PartialEq for EvmError {
    fn eq(&self, other: &Self) -> (r: bool) {
        match (self, other) {
            (EvmError::StackOverflow, EvmError::StackOverflow) => true,
            (EvmError::StackUnderflow, EvmError::StackUnderflow) => true,
            (EvmError::InvalidOpcode(a), EvmError::InvalidOpcode(b)) => *a == *b,
            (EvmError::InvalidPush, EvmError::InvalidPush) => true,
            (EvmError::InvalidDup, EvmError::InvalidDup) => true,
            (EvmError::InvalidSwap, EvmError::InvalidSwap) => true,
            (EvmError::MemoryOutOfBounds, EvmError::MemoryOutOfBounds) => true,
            (EvmError::InvalidHex(a), EvmError::InvalidHex(b)) => *a == *b,
            _ => false,
        }
    }
}

impl vstd::std_specs::cmp::PartialEqSpecImpl for EvmError {
    open spec fn obeys_eq_spec() -> bool {
        true
    }

    open spec fn eq_spec(&self, other: &Self) -> bool {
        match (self, other) {
            (EvmError::StackOverflow, EvmError::StackOverflow) => true,
            (EvmError::StackUnderflow, EvmError::StackUnderflow) => true,
            (EvmError::InvalidOpcode(a), EvmError::InvalidOpcode(b)) => a == b,
            (EvmError::InvalidPush, EvmError::InvalidPush) => true,
            (EvmError::InvalidDup, EvmError::InvalidDup) => true,
            (EvmError::InvalidSwap, EvmError::InvalidSwap) => true,
            (EvmError::MemoryOutOfBounds, EvmError::MemoryOutOfBounds) => true,
            (EvmError::InvalidHex(a), EvmError::InvalidHex(b)) => a@ == b@,
            _ => false,
        }
    }
}

} // verus!
