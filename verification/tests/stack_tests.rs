//! Tests of the bounded operand stack.

use evm::error::EvmError;
use evm::stack::{Stack, MAX_STACK_SIZE};
use evm::word::Word;

#[test]
fn test_push_pop() {
    let mut stack = Stack::new();
    stack.push(Word::from_u64(42)).unwrap();
    assert_eq!(stack.pop().unwrap(), Word::from_u64(42));
}

#[test]
fn test_stack_overflow() {
    let mut stack = Stack::new();
    for i in 0..MAX_STACK_SIZE {
        stack.push(Word::from_u64(i as u64)).unwrap();
    }
    assert_eq!(stack.push(Word::from_u64(0)), Err(EvmError::StackOverflow));
}

#[test]
fn test_stack_underflow() {
    let mut stack = Stack::new();
    assert_eq!(stack.pop(), Err(EvmError::StackUnderflow));
}

#[test]
fn test_at_and_peek() {
    let mut stack = Stack::new();
    stack.push(Word::from_u64(10)).unwrap();
    stack.push(Word::from_u64(20)).unwrap();
    stack.push(Word::from_u64(30)).unwrap();
    assert_eq!(stack.at(0).unwrap(), Word::from_u64(10));
    assert_eq!(stack.peek(0).unwrap(), Word::from_u64(30));
    assert_eq!(stack.peek(2).unwrap(), Word::from_u64(10));
    assert_eq!(stack.at(3), Err(EvmError::StackUnderflow));
    assert_eq!(stack.peek(3), Err(EvmError::StackUnderflow));
}

#[test]
fn test_swap_indices() {
    let mut stack = Stack::new();
    stack.push(Word::from_u64(1)).unwrap();
    stack.push(Word::from_u64(2)).unwrap();
    stack.push(Word::from_u64(3)).unwrap();
    stack.swap(0, 2).unwrap();
    assert_eq!(stack.at(0).unwrap(), Word::from_u64(3));
    assert_eq!(stack.at(2).unwrap(), Word::from_u64(1));
    assert_eq!(stack.swap(0, 3), Err(EvmError::StackUnderflow));
    assert!(!stack.is_empty());
}
