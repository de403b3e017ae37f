//! End-to-end tests: bytecode in, stack top out.

use evm::error::EvmError;
use evm::evm::Evm;
use evm::utils::hex_to_bytes;
use evm::word::Word;

#[test]
fn test_push1_stop() {
    let mut vm = Evm::new();
    let bytecode = hex_to_bytes("0x6042").unwrap();
    vm.execute(&bytecode).unwrap();
    assert_eq!(vm.stack_top().unwrap(), Word::from_u64(0x42));
}

#[test]
fn test_add() {
    let mut vm = Evm::new();
    // PUSH1 0x01, PUSH1 0x02, ADD
    let bytecode = hex_to_bytes("0x6001600201").unwrap();
    vm.execute(&bytecode).unwrap();
    assert_eq!(vm.stack_top().unwrap(), Word::from_u64(3));
}

#[test]
fn test_mul() {
    let mut vm = Evm::new();
    // PUSH1 0x03, PUSH1 0x04, MUL
    let bytecode = hex_to_bytes("0x6003600402").unwrap();
    vm.execute(&bytecode).unwrap();
    assert_eq!(vm.stack_top().unwrap(), Word::from_u64(12));
}

#[test]
fn test_sub() {
    let mut vm = Evm::new();
    // PUSH1 0x03, PUSH1 0x05, SUB
    let bytecode = hex_to_bytes("0x6003600503").unwrap();
    vm.execute(&bytecode).unwrap();
    assert_eq!(vm.stack_top().unwrap(), Word::from_u64(2));
}

#[test]
fn test_div() {
    let mut vm = Evm::new();
    // PUSH1 0x02, PUSH1 0x06, DIV
    let bytecode = hex_to_bytes("0x6002600604").unwrap();
    vm.execute(&bytecode).unwrap();
    assert_eq!(vm.stack_top().unwrap(), Word::from_u64(3));
}

#[test]
fn test_div_by_zero() {
    let mut vm = Evm::new();
    // PUSH1 0x00, PUSH1 0x06, DIV
    let bytecode = hex_to_bytes("0x6000600604").unwrap();
    vm.execute(&bytecode).unwrap();
    assert_eq!(vm.stack_top().unwrap(), Word::zero());
}

#[test]
fn test_mod() {
    let mut vm = Evm::new();
    // PUSH1 0x03, PUSH1 0x0a, MOD
    let bytecode = hex_to_bytes("0x6003600a06").unwrap();
    vm.execute(&bytecode).unwrap();
    assert_eq!(vm.stack_top().unwrap(), Word::from_u64(1));
}

#[test]
fn evm_test_dup1() {
    let mut vm = Evm::new();
    // PUSH1 0x42, DUP1
    let bytecode = hex_to_bytes("0x604280").unwrap();
    vm.execute(&bytecode).unwrap();
    assert_eq!(vm.stack().len(), 2);
    assert_eq!(vm.stack_top().unwrap(), Word::from_u64(0x42));
}

#[test]
fn evm_test_swap1() {
    let mut vm = Evm::new();
    // PUSH1 0x01, PUSH1 0x02, SWAP1
    let bytecode = hex_to_bytes("0x6001600290").unwrap();
    vm.execute(&bytecode).unwrap();
    assert_eq!(vm.stack_top().unwrap(), Word::from_u64(1));
}

#[test]
fn test_pop() {
    let mut vm = Evm::new();
    // PUSH1 0x01, PUSH1 0x02, POP
    let bytecode = hex_to_bytes("0x6001600250").unwrap();
    vm.execute(&bytecode).unwrap();
    assert_eq!(vm.stack().len(), 1);
    assert_eq!(vm.stack_top().unwrap(), Word::from_u64(1));
}

#[test]
fn evm_test_sstore_sload() {
    let mut vm = Evm::new();
    // PUSH1 0x64 (value=100), PUSH1 0x01 (key=1), SSTORE, PUSH1 0x01, SLOAD
    let bytecode = hex_to_bytes("0x6064600155600154").unwrap();
    vm.execute(&bytecode).unwrap();
    assert_eq!(vm.stack_top().unwrap(), Word::from_u64(100));
}

#[test]
fn test_iszero() {
    let mut vm = Evm::new();
    // PUSH1 0x00, ISZERO
    let bytecode = hex_to_bytes("0x600015").unwrap();
    vm.execute(&bytecode).unwrap();
    assert_eq!(vm.stack_top().unwrap(), Word::one());
}

#[test]
fn test_lt() {
    let mut vm = Evm::new();
    // PUSH1 0x02, PUSH1 0x01, LT (1 < 2 = true)
    let bytecode = hex_to_bytes("0x6002600110").unwrap();
    vm.execute(&bytecode).unwrap();
    assert_eq!(vm.stack_top().unwrap(), Word::one());
}

#[test]
fn test_gt() {
    let mut vm = Evm::new();
    // PUSH1 0x01, PUSH1 0x02, GT (2 > 1 = true)
    let bytecode = hex_to_bytes("0x6001600211").unwrap();
    vm.execute(&bytecode).unwrap();
    assert_eq!(vm.stack_top().unwrap(), Word::one());
}

#[test]
fn test_eq() {
    let mut vm = Evm::new();
    // PUSH1 0x05, PUSH1 0x05, EQ
    let bytecode = hex_to_bytes("0x6005600514").unwrap();
    vm.execute(&bytecode).unwrap();
    assert_eq!(vm.stack_top().unwrap(), Word::one());
}

#[test]
fn test_and() {
    let mut vm = Evm::new();
    // PUSH1 0x0f, PUSH1 0xff, AND
    let bytecode = hex_to_bytes("0x600f60ff16").unwrap();
    vm.execute(&bytecode).unwrap();
    assert_eq!(vm.stack_top().unwrap(), Word::from_u64(0x0f));
}

#[test]
fn test_or() {
    let mut vm = Evm::new();
    // PUSH1 0x0f, PUSH1 0xf0, OR
    let bytecode = hex_to_bytes("0x600f60f017").unwrap();
    vm.execute(&bytecode).unwrap();
    assert_eq!(vm.stack_top().unwrap(), Word::from_u64(0xff));
}

#[test]
fn test_xor() {
    let mut vm = Evm::new();
    // PUSH1 0xff, PUSH1 0xf0, XOR
    let bytecode = hex_to_bytes("0x60ff60f018").unwrap();
    vm.execute(&bytecode).unwrap();
    assert_eq!(vm.stack_top().unwrap(), Word::from_u64(0x0f));
}

#[test]
fn test_not() {
    let mut vm = Evm::new();
    // PUSH1 0x00, NOT
    let bytecode = hex_to_bytes("0x600019").unwrap();
    vm.execute(&bytecode).unwrap();
    assert_eq!(vm.stack_top().unwrap(), Word::max_word());
}

#[test]
fn test_exp() {
    let mut vm = Evm::new();
    // PUSH1 0x03, PUSH1 0x02, EXP (2^3 = 8)
    let bytecode = hex_to_bytes("0x600360020a").unwrap();
    vm.execute(&bytecode).unwrap();
    assert_eq!(vm.stack_top().unwrap(), Word::from_u64(8));
}

#[test]
fn test_sdiv_negative() {
    let mut vm = Evm::new();
    // -4 / 2 = -2: PUSH1 4, PUSH1 0, SUB gives -4; PUSH1 2; SWAP1; SDIV
    let bytecode = hex_to_bytes("0x600460000360029005").unwrap();
    vm.execute(&bytecode).unwrap();
    let minus_two = Word::zero().wrapping_sub(&Word::from_u64(2));
    assert_eq!(vm.stack_top().unwrap(), minus_two);
}

#[test]
fn test_smod_negative() {
    let mut vm = Evm::new();
    // -5 mod 3 = -2: PUSH1 5, PUSH1 0, SUB gives -5; PUSH1 3; SWAP1; SMOD
    let bytecode = hex_to_bytes("0x600560000360039007").unwrap();
    vm.execute(&bytecode).unwrap();
    let minus_two = Word::zero().wrapping_sub(&Word::from_u64(2));
    assert_eq!(vm.stack_top().unwrap(), minus_two);
}

#[test]
fn test_slt_negative() {
    let mut vm = Evm::new();
    // -1 < 1 signed: PUSH1 1; PUSH1 1, PUSH1 0, SUB gives -1; SLT
    let bytecode = hex_to_bytes("0x6001600160000312").unwrap();
    vm.execute(&bytecode).unwrap();
    assert_eq!(vm.stack_top().unwrap(), Word::one());
}

#[test]
fn test_sgt_negative() {
    let mut vm = Evm::new();
    // 1 > -1 signed: PUSH1 1, PUSH1 0, SUB gives -1; PUSH1 1; SGT
    let bytecode = hex_to_bytes("0x6001600003600113").unwrap();
    vm.execute(&bytecode).unwrap();
    assert_eq!(vm.stack_top().unwrap(), Word::one());
}

#[test]
fn test_addmod() {
    let mut vm = Evm::new();
    // (10 + 10) % 8 = 4: PUSH1 8, PUSH1 10, PUSH1 10, ADDMOD
    let bytecode = hex_to_bytes("0x6008600a600a08").unwrap();
    vm.execute(&bytecode).unwrap();
    assert_eq!(vm.stack_top().unwrap(), Word::from_u64(4));
}

#[test]
fn test_addmod_zero_modulus() {
    let mut vm = Evm::new();
    // (10 + 10) mod 0 = 0 by convention
    let bytecode = hex_to_bytes("0x6000600a600a08").unwrap();
    vm.execute(&bytecode).unwrap();
    assert_eq!(vm.stack_top().unwrap(), Word::zero());
}

#[test]
fn test_mulmod() {
    let mut vm = Evm::new();
    // (10 * 10) % 8 = 4: PUSH1 8, PUSH1 10, PUSH1 10, MULMOD
    let bytecode = hex_to_bytes("0x6008600a600a09").unwrap();
    vm.execute(&bytecode).unwrap();
    assert_eq!(vm.stack_top().unwrap(), Word::from_u64(4));
}

#[test]
fn test_signextend_byte0() {
    let mut vm = Evm::new();
    // sign-extending 0xff from its lowest byte gives -1 (all ones)
    let bytecode = hex_to_bytes("0x60ff60000b").unwrap();
    vm.execute(&bytecode).unwrap();
    assert_eq!(vm.stack_top().unwrap(), Word::max_word());
}

#[test]
fn test_signextend_identity() {
    let mut vm = Evm::new();
    // a byte index of 32 or more leaves the value unchanged
    let bytecode = hex_to_bytes("0x600560200b").unwrap();
    vm.execute(&bytecode).unwrap();
    assert_eq!(vm.stack_top().unwrap(), Word::from_u64(5));
}

#[test]
fn test_byte_opcode() {
    let mut vm = Evm::new();
    // PUSH2 0x1234; byte 30 (second least significant) is 0x12
    let bytecode = hex_to_bytes("0x611234601e1a").unwrap();
    vm.execute(&bytecode).unwrap();
    assert_eq!(vm.stack_top().unwrap(), Word::from_u64(0x12));
}

#[test]
fn test_shl() {
    let mut vm = Evm::new();
    // 1 << 4 = 16
    let bytecode = hex_to_bytes("0x600160041b").unwrap();
    vm.execute(&bytecode).unwrap();
    assert_eq!(vm.stack_top().unwrap(), Word::from_u64(16));
}

#[test]
fn test_shr() {
    let mut vm = Evm::new();
    // 16 >> 4 = 1
    let bytecode = hex_to_bytes("0x601060041c").unwrap();
    vm.execute(&bytecode).unwrap();
    assert_eq!(vm.stack_top().unwrap(), Word::one());
}

#[test]
fn test_sar_negative() {
    let mut vm = Evm::new();
    // -16 >> 4 arithmetic = -1
    let bytecode = hex_to_bytes("0x601060000360041d").unwrap();
    vm.execute(&bytecode).unwrap();
    assert_eq!(vm.stack_top().unwrap(), Word::max_word());
}

#[test]
fn test_push32_max() {
    let mut vm = Evm::new();
    let mut hex = String::from("0x7f");
    for _ in 0..32 {
        hex.push_str("ff");
    }
    let bytecode = hex_to_bytes(&hex).unwrap();
    vm.execute(&bytecode).unwrap();
    assert_eq!(vm.stack_top().unwrap(), Word::max_word());
}

#[test]
fn test_push0_opcode() {
    let mut vm = Evm::new();
    let bytecode = hex_to_bytes("0x5f").unwrap();
    vm.execute(&bytecode).unwrap();
    assert_eq!(vm.stack_top().unwrap(), Word::zero());
}

#[test]
fn test_invalid_push() {
    let mut vm = Evm::new();
    // PUSH1 with no payload byte
    let bytecode = hex_to_bytes("0x60").unwrap();
    assert_eq!(vm.execute(&bytecode), Err(EvmError::InvalidPush));
}

#[test]
fn test_invalid_opcode() {
    let mut vm = Evm::new();
    let bytecode = hex_to_bytes("0xfe").unwrap();
    assert_eq!(vm.execute(&bytecode), Err(EvmError::InvalidOpcode(0xfe)));
}

#[test]
fn test_invalid_dup() {
    let mut vm = Evm::new();
    // DUP1 with an empty stack
    let bytecode = hex_to_bytes("0x80").unwrap();
    assert_eq!(vm.execute(&bytecode), Err(EvmError::InvalidDup));
}

#[test]
fn test_invalid_swap() {
    let mut vm = Evm::new();
    // SWAP1 with a single entry
    let bytecode = hex_to_bytes("0x600190").unwrap();
    assert_eq!(vm.execute(&bytecode), Err(EvmError::InvalidSwap));
}

#[test]
fn test_underflow_add() {
    let mut vm = Evm::new();
    // ADD with an empty stack
    let bytecode = hex_to_bytes("0x01").unwrap();
    assert_eq!(vm.execute(&bytecode), Err(EvmError::StackUnderflow));
}

#[test]
fn test_overflow_on_1025th_push() {
    let mut vm = Evm::new();
    let mut bytecode: Vec<u8> = Vec::new();
    for _ in 0..1025 {
        bytecode.push(0x60);
        bytecode.push(0x01);
    }
    assert_eq!(vm.execute(&bytecode), Err(EvmError::StackOverflow));
    assert_eq!(vm.stack().len(), 1024);
}

#[test]
fn test_stop_halts() {
    let mut vm = Evm::new();
    // PUSH1 1, STOP, PUSH1 2 (never reached)
    let bytecode = hex_to_bytes("0x6001006002").unwrap();
    vm.execute(&bytecode).unwrap();
    assert_eq!(vm.stack().len(), 1);
    assert_eq!(vm.stack_top().unwrap(), Word::from_u64(1));
}

#[test]
fn test_storage_persists_across_executes() {
    let mut vm = Evm::new();
    // PUSH1 100, PUSH1 1, SSTORE
    let store = hex_to_bytes("0x6064600155").unwrap();
    vm.execute(&store).unwrap();
    // PUSH1 1, SLOAD against the same machine
    let load = hex_to_bytes("0x600154").unwrap();
    vm.execute(&load).unwrap();
    assert_eq!(vm.stack_top().unwrap(), Word::from_u64(100));
}

#[test]
fn test_mul_wraps() {
    let mut vm = Evm::new();
    // (2^256 - 1) * 2 wraps to 2^256 - 2
    let mut hex = String::from("0x7f");
    for _ in 0..32 {
        hex.push_str("ff");
    }
    hex.push_str("600202");
    let bytecode = hex_to_bytes(&hex).unwrap();
    vm.execute(&bytecode).unwrap();
    let expected = Word::zero().wrapping_sub(&Word::from_u64(2));
    assert_eq!(vm.stack_top().unwrap(), expected);
}

#[test]
fn test_add_then_sub_round_trip() {
    let mut vm = Evm::new();
    // PUSH1 7, PUSH1 7, PUSH1 42, ADD, SUB: adding 7 to 42 and then
    // subtracting 7 again returns to 42.
    let bytecode = hex_to_bytes("0x60076007602a0103").unwrap();
    vm.execute(&bytecode).unwrap();
    assert_eq!(vm.stack_top().unwrap(), Word::from_u64(42));
}
