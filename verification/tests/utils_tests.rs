//! Tests of the hex input and output helpers.

use evm::error::EvmError;
use evm::utils::{bytes_to_hex, hex_to_bytes};
use evm::word::Word;

#[test]
fn test_hex_to_bytes() {
    assert_eq!(hex_to_bytes("0x6001").unwrap(), vec![0x60, 0x01]);
    assert_eq!(hex_to_bytes("6001").unwrap(), vec![0x60, 0x01]);
}

#[test]
fn test_bytes_to_hex() {
    assert_eq!(bytes_to_hex(&[0x60, 0x01]), "0x6001");
}

#[test]
fn test_hex_to_bytes_odd_length() {
    assert!(matches!(hex_to_bytes("0x123"), Err(EvmError::InvalidHex(_))));
}

#[test]
fn test_hex_to_bytes_bad_digit() {
    assert!(matches!(hex_to_bytes("0xzz"), Err(EvmError::InvalidHex(_))));
}

#[test]
fn test_hex_to_bytes_uppercase_and_empty() {
    assert_eq!(hex_to_bytes("0xAB").unwrap(), vec![0xab]);
    assert_eq!(hex_to_bytes("").unwrap(), Vec::<u8>::new());
    assert_eq!(hex_to_bytes("0x").unwrap(), Vec::<u8>::new());
}

#[test]
fn test_bytes_to_hex_empty() {
    assert_eq!(bytes_to_hex(&[]), "0x");
}

#[test]
fn test_word_to_big_endian() {
    let w = Word::from_u64(0x1234);
    let bytes = w.to_big_endian();
    assert_eq!(bytes.len(), 32);
    assert_eq!(bytes[30], 0x12);
    assert_eq!(bytes[31], 0x34);
    assert_eq!(bytes[0], 0);
    assert_eq!(bytes_to_hex(&bytes[30..]), "0x1234");
}
