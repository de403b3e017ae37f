//! A minimal Ethereum Virtual Machine (EVM) bytecode interpreter.
//!
//! The machine executes a flat sequence of single-byte opcodes over a
//! bounded operand stack of 256-bit words, a byte-addressed expandable
//! memory, and a key/value storage map.  Every component carries a
//! mathematical contract: arithmetic is specified modulo 2^256, the
//! stack is specified as a sequence, storage as a map, and the
//! interpreter loop is proved to agree with a purely mathematical
//! step-by-step execution function.

pub mod error;
pub mod evm;
pub mod handlers;
pub mod memory;
pub mod opcodes;
pub mod stack;
pub mod storage;
pub mod utils;
pub mod word;

pub use error::EvmError;
pub use evm::Evm;
pub use word::Word;
