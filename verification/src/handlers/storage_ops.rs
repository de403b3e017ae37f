//! SLOAD and SSTORE: the opcodes that read and write persistent
//! storage.  SSTORE pops the key first, then the value.

use crate::error::EvmError;
use crate::stack::Stack;
use crate::storage::{spec_read, Storage};
use vstd::prelude::*;

verus! {

/// Execute SLOAD: pop a key and push the stored value, or zero for a
/// key never written.  Fails only when the stack is empty.
pub fn handle_sload(storage: &Storage, stack: &mut Stack) -> (r: Result<(), EvmError>)
    requires
        old(stack).wf(),
    ensures
        final(stack).wf(),
        old(stack)@.len() == 0 ==> r == Err::<(), EvmError>(EvmError::StackUnderflow) && final(stack)@ == old(stack)@,
        old(stack)@.len() > 0 ==> r == Ok::<(), EvmError>(()) && final(stack)@ == old(stack)@.drop_last().push(spec_read(storage@, old(stack)@.last())),
{
    let key = stack.pop()?;
    let value = storage.read(&key);
    stack.push(value)?;
    Ok(())
}

/// Execute SSTORE: pop the key, then the value, and write the pair to
/// storage.  Fails only when fewer than two entries are on the stack;
/// a pop that happened before the failure is not rolled back.
pub fn handle_sstore(storage: &mut Storage, stack: &mut Stack) -> (r: Result<(), EvmError>)
    requires
        old(stack).wf(),
    ensures
        final(stack).wf(),
        old(stack)@.len() == 0 ==> r == Err::<(), EvmError>(EvmError::StackUnderflow) && final(stack)@ == old(stack)@ && final(storage)@ == old(storage)@,
        old(stack)@.len() == 1 ==> r == Err::<(), EvmError>(EvmError::StackUnderflow) && final(stack)@ == old(stack)@.drop_last() && final(storage)@ == old(storage)@,
        old(stack)@.len() >= 2 ==> r == Ok::<(), EvmError>(()) && final(stack)@ == old(stack)@.drop_last().drop_last() && final(storage)@ == old(storage)@.insert(
            old(stack)@.last(),
            old(stack)@[old(stack)@.len() - 2],
        ),
{
    let key = stack.pop()?;
    let value = stack.pop()?;
    storage.write(key, value);
    Ok(())
}

} // verus!
