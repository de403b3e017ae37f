//! PUSH0..PUSH32, DUP1..DUP16 and SWAP1..SWAP16: the opcodes whose
//! behaviour is derived from the opcode byte itself.

use crate::error::EvmError;
use crate::opcodes;
use crate::stack::{Stack, MAX_STACK_SIZE};
use crate::word::{be_val, word_modulus, word_of, Word};
use vstd::prelude::*;
use vstd::arithmetic::div_mod::lemma_small_mod;
use vstd::arithmetic::power2::{lemma2_to64, lemma_pow2_adds, lemma_pow2_strictly_increases, pow2};

verus! {

/// How many payload bytes a PUSH opcode reads.
pub open spec fn push_size(op: u8) -> nat {
    (op - opcodes::PUSH0) as nat
}

/// The word denoted by `n` big-endian bytes of `bytes` starting at
/// `start`.
fn word_from_be(bytes: &[u8], start: usize, n: usize) -> (r: Word)
    requires
        start + n <= bytes@.len(),
        n <= 32,
    ensures
        r@ == be_val(bytes@.subrange(start as int, start + n)),
{
    let mut acc = Word::zero();
    let mut i: usize = 0;
    let total = bytes.len();
    proof {
        lemma2_to64();
        assert(bytes@.subrange(start as int, start as int) =~= Seq::<u8>::empty());
    }
    while i < n
        invariant
            total == bytes@.len(),
            start + n <= bytes@.len(),
            n <= 32,
            i <= n,
            acc@ == be_val(bytes@.subrange(start as int, start + i)),
            acc@ < pow2((8 * i) as nat),
        decreases n - i,
    {
        proof {
            lemma2_to64();
            lemma_pow2_adds((8 * i) as nat, 8);
            if 8 * i + 8 < 256 {
                lemma_pow2_strictly_increases((8 * i + 8) as nat, 256);
            }
            crate::word::lemma_limb_bases();
            lemma_small_mod((acc@ * 256) as nat, word_modulus());
            assert(acc@ * pow2(8) == acc@ * 256);
            lemma_small_mod((acc@ * 256 + bytes@[start + i]) as nat, word_modulus());
        }
        let shifted = acc.shl_bits(8);
        acc = shifted.wrapping_add(&Word::from_u64(bytes[start + i] as u64));
        proof {
            assert(bytes@.subrange(start as int, start + i + 1).drop_last() =~= bytes@.subrange(
                start as int,
                start + i,
            ));
            assert(bytes@.subrange(start as int, start + i + 1).last() == bytes@[start + i]);
        }
        i += 1;
    }
    acc
}

/// Execute a PUSH opcode: PUSH0 pushes zero; PUSHn reads the next `n`
/// bytes as a big-endian word, advances the program counter past them,
/// and pushes the word.  A payload running past the end of the bytecode
/// fails with `InvalidPush`; a full stack fails with `StackOverflow`.
pub fn handle_push(opcode: u8, stack: &mut Stack, bytecode: &[u8], pc: &mut usize) -> (r: Result<
    (),
    EvmError,
>)
    requires
        opcodes::spec_is_push(opcode),
        old(stack).wf(),
        *old(pc) + 32 <= usize::MAX,
    ensures
        final(stack).wf(),
        push_size(opcode) == 0 ==> *final(pc) == *old(pc),
        push_size(opcode) == 0 && old(stack)@.len() < MAX_STACK_SIZE ==> r == Ok::<(), EvmError>(())
            && final(stack)@ == old(stack)@.push(word_of(0)),
        push_size(opcode) == 0 && old(stack)@.len() == MAX_STACK_SIZE ==> r == Err::<(), EvmError>(
            EvmError::StackOverflow,
        ) && final(stack)@ == old(stack)@,
        push_size(opcode) > 0 && *old(pc) + push_size(opcode) > bytecode@.len() ==> r == Err::<
            (),
            EvmError,
        >(EvmError::InvalidPush) && final(stack)@ == old(stack)@ && *final(pc) == *old(pc),
        push_size(opcode) > 0 && *old(pc) + push_size(opcode) <= bytecode@.len() ==> *final(pc) == *old(pc) + push_size(opcode),
        push_size(opcode) > 0 && *old(pc) + push_size(opcode) <= bytecode@.len() && old(stack)@.len() < MAX_STACK_SIZE ==> r == Ok::<(), EvmError>(()) && final(stack)@ == old(stack)@.push(
            word_of(
                be_val(bytecode@.subrange(*old(pc) as int, *old(pc) + push_size(opcode) as int)),
            ),
        ),
        push_size(opcode) > 0 && *old(pc) + push_size(opcode) <= bytecode@.len() && old(stack)@.len() == MAX_STACK_SIZE ==> r == Err::<(), EvmError>(EvmError::StackOverflow) && final(stack)@ == old(stack)@,
{
    let bytes_to_push = (opcode - opcodes::PUSH0) as usize;

    if bytes_to_push == 0 {
        let z = Word::zero();
        proof {
            z.lemma_word_of_view();
        }
        stack.push(z)?;
        return Ok(());
    }
    if *pc + bytes_to_push > bytecode.len() {
        return Err(EvmError::InvalidPush);
    }
    let value = word_from_be(bytecode, *pc, bytes_to_push);
    proof {
        value.lemma_word_of_view();
    }
    *pc += bytes_to_push;
    stack.push(value)?;
    Ok(())
}

/// Execute a DUP opcode: push a copy of the entry `k` below the top,
/// where `k` is drawn from the opcode byte.  A stack shallower than `k`
/// fails with `InvalidDup`; a full stack fails with `StackOverflow`.
pub fn handle_dup(opcode: u8, stack: &mut Stack) -> (r: Result<(), EvmError>)
    requires
        opcodes::spec_is_dup(opcode),
        old(stack).wf(),
    ensures
        final(stack).wf(),
        ({
            let k = (opcode - opcodes::DUP1 + 1) as nat;
            &&& old(stack)@.len() < k ==> r == Err::<(), EvmError>(EvmError::InvalidDup) && final(stack)@ == old(stack)@
            &&& old(stack)@.len() >= k && old(stack)@.len() < MAX_STACK_SIZE ==> r == Ok::<
                (),
                EvmError,
            >(()) && final(stack)@ == old(stack)@.push(old(stack)@[old(stack)@.len() - k])
            &&& old(stack)@.len() >= k && old(stack)@.len() == MAX_STACK_SIZE ==> r == Err::<
                (),
                EvmError,
            >(EvmError::StackOverflow) && final(stack)@ == old(stack)@
        }),
{
    let dup_index = (opcode - opcodes::DUP1 + 1) as usize;
    let size = stack.len();

    if size < dup_index {
        return Err(EvmError::InvalidDup);
    }
    let value = match stack.at(size - dup_index) {
        Ok(v) => v,
        Err(e) => {
            return Err(e);
        },
    };
    stack.push(value)?;
    Ok(())
}

/// Execute a SWAP opcode: exchange the top with the entry `k` below it,
/// where `k` is drawn from the opcode byte.  A stack of `k` entries or
/// fewer fails with `InvalidSwap`.
pub fn handle_swap(opcode: u8, stack: &mut Stack) -> (r: Result<(), EvmError>)
    requires
        opcodes::spec_is_swap(opcode),
        old(stack).wf(),
    ensures
        final(stack).wf(),
        ({
            let k = (opcode - opcodes::SWAP1 + 1) as nat;
            let len = old(stack)@.len();
            &&& len <= k ==> r == Err::<(), EvmError>(EvmError::InvalidSwap) && final(stack)@ == old(stack)@
            &&& len > k ==> r == Ok::<(), EvmError>(()) && final(stack)@ == old(stack)@.update(
                len - 1,
                old(stack)@[len - 1 - k],
            ).update(len - 1 - k, old(stack)@[len - 1])
        }),
{
    let swap_index = (opcode - opcodes::SWAP1 + 1) as usize;
    let size = stack.len();

    if size <= swap_index {
        return Err(EvmError::InvalidSwap);
    }
    stack.swap(size - 1, size - 1 - swap_index)?;
    Ok(())
}

} // verus!
