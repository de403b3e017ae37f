//! Tests of the expandable byte memory.

use evm::memory::Memory;
use evm::word::Word;

#[test]
fn test_memory_write_read() {
    let mut memory = Memory::new();
    memory.write(&Word::from_u64(0), 0x42);
    assert_eq!(memory.read(&Word::from_u64(0)), 0x42);
}

#[test]
fn test_memory_expansion() {
    let mut memory = Memory::new();
    memory.write(&Word::from_u64(100), 0xff);
    assert!(memory.size() >= 100);
}

#[test]
fn test_memory_rounds_to_32() {
    let mut memory = Memory::new();
    memory.write(&Word::from_u64(0), 1);
    assert_eq!(memory.size(), 32);
    memory.write(&Word::from_u64(32), 1);
    assert_eq!(memory.size(), 64);
}

#[test]
fn test_memory_bytes_round_trip() {
    let mut memory = Memory::new();
    memory.write_bytes(&Word::from_u64(10), &[1, 2, 3]);
    assert_eq!(memory.read_bytes(&Word::from_u64(10), 3), vec![1, 2, 3]);
    // a byte never written reads as zero
    assert_eq!(memory.read(&Word::from_u64(9)), 0);
}
