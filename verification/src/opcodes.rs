//! Byte constants for the implemented opcode subset, and the family
//! predicates for PUSH, DUP and SWAP.

use vstd::prelude::*;

verus! {

pub const STOP: u8 = 0x00;

pub const ADD: u8 = 0x01;

pub const MUL: u8 = 0x02;

pub const SUB: u8 = 0x03;

pub const DIV: u8 = 0x04;

pub const SDIV: u8 = 0x05;

pub const MOD: u8 = 0x06;

pub const SMOD: u8 = 0x07;

pub const ADDMOD: u8 = 0x08;

pub const MULMOD: u8 = 0x09;

pub const EXP: u8 = 0x0a;

pub const SIGNEXTEND: u8 = 0x0b;

pub const LT: u8 = 0x10;

pub const GT: u8 = 0x11;

pub const SLT: u8 = 0x12;

pub const SGT: u8 = 0x13;

pub const EQ: u8 = 0x14;

pub const ISZERO: u8 = 0x15;

pub const AND: u8 = 0x16;

pub const OR: u8 = 0x17;

pub const XOR: u8 = 0x18;

pub const NOT: u8 = 0x19;

pub const BYTE: u8 = 0x1a;

pub const SHL: u8 = 0x1b;

pub const SHR: u8 = 0x1c;

pub const SAR: u8 = 0x1d;

pub const POP: u8 = 0x50;

pub const SLOAD: u8 = 0x54;

pub const SSTORE: u8 = 0x55;

pub const PUSH0: u8 = 0x5f;

pub const PUSH1: u8 = 0x60;

pub const PUSH32: u8 = 0x7f;

pub const DUP1: u8 = 0x80;

pub const DUP16: u8 = 0x8f;

pub const SWAP1: u8 = 0x90;

pub const SWAP16: u8 = 0x9f;

/// The PUSH0..PUSH32 family.
pub open spec fn spec_is_push(op: u8) -> bool {
    PUSH0 <= op <= PUSH32
}

/// The DUP1..DUP16 family.
pub open spec fn spec_is_dup(op: u8) -> bool {
    DUP1 <= op <= DUP16
}

/// The SWAP1..SWAP16 family.
pub open spec fn spec_is_swap(op: u8) -> bool {
    SWAP1 <= op <= SWAP16
}

/// Does the byte name a PUSH opcode?
pub fn is_push(op: u8) -> (r: bool)
    ensures
        r == spec_is_push(op),
{
    PUSH0 <= op && op <= PUSH32
}

/// Does the byte name a DUP opcode?
pub fn is_dup(op: u8) -> (r: bool)
    ensures
        r == spec_is_dup(op),
{
    DUP1 <= op && op <= DUP16
}

/// Does the byte name a SWAP opcode?
pub fn is_swap(op: u8) -> (r: bool)
    ensures
        r == spec_is_swap(op),
{
    SWAP1 <= op && op <= SWAP16
}

} // verus!
