//! Tests of persistent storage and its opcode handlers.

use evm::handlers::storage_ops::{handle_sload, handle_sstore};
use evm::stack::Stack;
use evm::storage::Storage;
use evm::word::Word;

#[test]
fn test_storage_write_read() {
    let mut storage = Storage::new();
    storage.write(Word::from_u64(1), Word::from_u64(100));
    assert_eq!(storage.read(&Word::from_u64(1)), Word::from_u64(100));
}

#[test]
fn test_storage_default_zero() {
    let storage = Storage::new();
    assert_eq!(storage.read(&Word::from_u64(999)), Word::zero());
}

#[test]
fn test_storage_overwrite() {
    let mut storage = Storage::new();
    storage.write(Word::from_u64(1), Word::from_u64(100));
    storage.write(Word::from_u64(1), Word::from_u64(7));
    assert_eq!(storage.read(&Word::from_u64(1)), Word::from_u64(7));
}

#[test]
fn storage_ops_test_sstore_sload() {
    let mut storage = Storage::new();
    let mut stack = Stack::new();

    stack.push(Word::from_u64(100)).unwrap();
    stack.push(Word::from_u64(1)).unwrap();
    handle_sstore(&mut storage, &mut stack).unwrap();

    stack.push(Word::from_u64(1)).unwrap();
    handle_sload(&storage, &mut stack).unwrap();

    assert_eq!(stack.top().unwrap(), Word::from_u64(100));
}
