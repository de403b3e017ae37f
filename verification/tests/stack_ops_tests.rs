//! Tests of the PUSH, DUP and SWAP handlers against a bare stack.

use evm::handlers::stack_ops::{handle_dup, handle_push, handle_swap};
use evm::stack::Stack;
use evm::word::Word;

#[test]
fn test_push1() {
    let mut stack = Stack::new();
    let bytecode = vec![0x60, 0x42];
    let mut pc = 1usize;
    handle_push(0x60, &mut stack, &bytecode, &mut pc).unwrap();
    assert_eq!(stack.top().unwrap(), Word::from_u64(0x42));
    assert_eq!(pc, 2);
}

#[test]
fn test_push0() {
    let mut stack = Stack::new();
    let bytecode = vec![0x5f];
    let mut pc = 1usize;
    handle_push(0x5f, &mut stack, &bytecode, &mut pc).unwrap();
    assert_eq!(stack.top().unwrap(), Word::zero());
}

#[test]
fn stack_ops_test_dup1() {
    let mut stack = Stack::new();
    stack.push(Word::from_u64(42)).unwrap();
    handle_dup(0x80, &mut stack).unwrap();
    assert_eq!(stack.len(), 2);
    assert_eq!(stack.top().unwrap(), Word::from_u64(42));
}

#[test]
fn stack_ops_test_swap1() {
    let mut stack = Stack::new();
    stack.push(Word::from_u64(1)).unwrap();
    stack.push(Word::from_u64(2)).unwrap();
    handle_swap(0x90, &mut stack).unwrap();
    assert_eq!(stack.pop().unwrap(), Word::from_u64(1));
    assert_eq!(stack.pop().unwrap(), Word::from_u64(2));
}

#[test]
fn test_push2_big_endian() {
    let mut stack = Stack::new();
    let bytecode = vec![0x61, 0x12, 0x34];
    let mut pc = 1usize;
    handle_push(0x61, &mut stack, &bytecode, &mut pc).unwrap();
    assert_eq!(stack.top().unwrap(), Word::from_u64(0x1234));
    assert_eq!(pc, 3);
}
