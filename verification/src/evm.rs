//! The interpreter: fetch, decode, dispatch.  Execution is specified by
//! a purely mathematical step function over machine states, and the
//! `execute` loop is proved to compute exactly what that function says.

use crate::error::EvmError;
use crate::handlers::arithmetic::{
    arith_arity, arith_stack, handle_arithmetic, is_arith_opcode,
};
use crate::handlers::stack_ops::{handle_dup, handle_push, handle_swap, push_size};
use crate::handlers::storage_ops::{handle_sload, handle_sstore};
use crate::memory::Memory;
use crate::opcodes;
use crate::stack::{Stack, MAX_STACK_SIZE};
use crate::storage::{spec_read, Storage};
use crate::word::{be_val, word_of, Word};
use vstd::prelude::*;

verus! {

/// A machine state as the mathematics sees it: the stack as a sequence
/// (bottom first), storage as a map, memory as its bytes, the program
/// counter and the halt flag.
pub struct MachineState {
    pub stack: Seq<Word>,
    pub storage: Map<Word, Word>,
    pub mem: Seq<u8>,
    pub pc: nat,
    pub running: bool,
}

/// The effect of one decoded opcode on a machine state whose program
/// counter already points past the opcode byte.  Returns the state as
/// mutated and the error that stops execution, if any.
pub open spec fn spec_dispatch(op: u8, code: Seq<u8>, st: MachineState) -> (
    MachineState,
    Option<EvmError>,
) {
    if op == opcodes::STOP {
        (MachineState { running: false, ..st }, None)
    } else if is_arith_opcode(op) {
        if st.stack.len() < arith_arity(op) {
            (st, Some(EvmError::StackUnderflow))
        } else {
            (MachineState { stack: arith_stack(op, st.stack), ..st }, None)
        }
    } else if op == opcodes::SLOAD {
        if st.stack.len() == 0 {
            (st, Some(EvmError::StackUnderflow))
        } else {
            (
                MachineState {
                    stack: st.stack.drop_last().push(spec_read(st.storage, st.stack.last())),
                    ..st
                },
                None,
            )
        }
    } else if op == opcodes::SSTORE {
        if st.stack.len() == 0 {
            (st, Some(EvmError::StackUnderflow))
        } else if st.stack.len() == 1 {
            (MachineState { stack: st.stack.drop_last(), ..st }, Some(EvmError::StackUnderflow))
        } else {
            (
                MachineState {
                    stack: st.stack.drop_last().drop_last(),
                    storage: st.storage.insert(
                        st.stack.last(),
                        st.stack[st.stack.len() - 2],
                    ),
                    ..st
                },
                None,
            )
        }
    } else if op == opcodes::POP {
        if st.stack.len() == 0 {
            (st, Some(EvmError::StackUnderflow))
        } else {
            (MachineState { stack: st.stack.drop_last(), ..st }, None)
        }
    } else if opcodes::spec_is_push(op) {
        let n = push_size(op);
        if n == 0 {
            if st.stack.len() < MAX_STACK_SIZE {
                (MachineState { stack: st.stack.push(word_of(0)), ..st }, None)
            } else {
                (st, Some(EvmError::StackOverflow))
            }
        } else if st.pc + n > code.len() {
            (st, Some(EvmError::InvalidPush))
        } else if st.stack.len() < MAX_STACK_SIZE {
            (
                MachineState {
                    stack: st.stack.push(
                        word_of(be_val(code.subrange(st.pc as int, (st.pc + n) as int))),
                    ),
                    pc: (st.pc + n) as nat,
                    ..st
                },
                None,
            )
        } else {
            (MachineState { pc: (st.pc + n) as nat, ..st }, Some(EvmError::StackOverflow))
        }
    } else if opcodes::spec_is_dup(op) {
        let k = (op - opcodes::DUP1 + 1) as nat;
        if st.stack.len() < k {
            (st, Some(EvmError::InvalidDup))
        } else if st.stack.len() < MAX_STACK_SIZE {
            (MachineState { stack: st.stack.push(st.stack[st.stack.len() - k]), ..st }, None)
        } else {
            (st, Some(EvmError::StackOverflow))
        }
    } else if opcodes::spec_is_swap(op) {
        let k = (op - opcodes::SWAP1 + 1) as nat;
        let len = st.stack.len();
        if len <= k {
            (st, Some(EvmError::InvalidSwap))
        } else {
            (
                MachineState {
                    stack: st.stack.update(len - 1, st.stack[len - 1 - k]).update(
                        len - 1 - k,
                        st.stack[len - 1],
                    ),
                    ..st
                },
                None,
            )
        }
    } else {
        (st, Some(EvmError::InvalidOpcode(op)))
    }
}

/// One fetch-decode-execute step: read the opcode at the program
/// counter, advance past it, and apply the opcode's effect.
pub open spec fn spec_step(code: Seq<u8>, st: MachineState) -> (MachineState, Option<EvmError>) {
    spec_dispatch(code[st.pc as int], code, MachineState { pc: (st.pc + 1) as nat, ..st })
}

/// Run the machine to completion: step until the halt flag clears, the
/// program counter runs off the end of the bytecode, or a step fails.
/// Running off the end is a normal halt, not an error.
pub open spec fn spec_run(code: Seq<u8>, st: MachineState) -> (MachineState, Option<EvmError>)
    decreases code.len() - st.pc,
{
    if !st.running || st.pc >= code.len() {
        (st, None)
    } else {
        let stepped = spec_step(code, st);
        if stepped.1 is Some {
            stepped
        } else if stepped.0.pc <= st.pc || stepped.0.pc > code.len() {
            stepped  // never taken: a step always advances within bounds
        } else {
            spec_run(code, stepped.0)
        }
    }
}

/// A step that does not fail advances the program counter and stays
/// within the bytecode, so the saturating branch of `spec_run` is never
/// taken.
pub proof fn lemma_step_advances(code: Seq<u8>, st: MachineState)
    requires
        st.running,
        st.pc < code.len(),
    ensures
        ({
            let stepped = spec_step(code, st);
            stepped.1 is None ==> st.pc < stepped.0.pc <= code.len()
        }),
{
}

/// The virtual machine: a stack, storage and memory owned for its
/// lifetime, and the program counter and halt flag of the current run.
pub struct Evm {
    stack: Stack,
    storage: Storage,
    memory: Memory,
    pc: usize,
    running: bool,
}

impl Evm {
    /// The machine state this interpreter is in.
    pub closed spec fn state(&self) -> MachineState {
        MachineState {
            stack: self.stack@,
            storage: self.storage@,
            mem: self.memory@,
            pc: self.pc as nat,
            running: self.running,
        }
    }

    /// The stack never exceeds its bound.
    pub closed spec fn wf(&self) -> bool {
        self.stack.wf()
    }

    /// A fresh machine: empty stack, empty storage, empty memory.
    pub fn new() -> (r: Evm)
        ensures
            r.wf(),
            r.state().stack == Seq::<Word>::empty(),
            r.state().storage == Map::<Word, Word>::empty(),
            r.state().mem == Seq::<u8>::empty(),
            r.state().pc == 0,
            r.state().running,
    {
        Evm {
            stack: Stack::new(),
            storage: Storage::new(),
            memory: Memory::new(),
            pc: 0,
            running: true,
        }
    }

    /// Execute one decoded opcode, with the program counter already past
    /// the opcode byte: the state and result are exactly what
    /// `spec_dispatch` says.
    fn execute_opcode(&mut self, opcode: u8, bytecode: &[u8]) -> (r: Result<(), EvmError>)
        requires
            old(self).wf(),
            old(self).state().pc + 32 <= usize::MAX,
        ensures
            final(self).wf(),
            ({
                let (st, err) = spec_dispatch(opcode, bytecode@, old(self).state());
                &&& final(self).state() == st
                &&& r == (match err {
                    Option::None => Ok::<(), EvmError>(()),
                    Option::Some(e) => Err::<(), EvmError>(e),
                })
            }),
    {
        let ghost pre = old(self).state();
        if opcode == opcodes::STOP {
            self.running = false;
            proof {
                assert(self.state() == spec_dispatch(opcode, bytecode@, pre).0);
            }
            Ok(())
        } else if crate::handlers::arithmetic::is_arithmetic_opcode(opcode) {
            let r = handle_arithmetic(opcode, &mut self.stack);
            proof {
                assert(self.state() == spec_dispatch(opcode, bytecode@, pre).0);
            }
            r
        } else if opcode == opcodes::SLOAD {
            let r = handle_sload(&self.storage, &mut self.stack);
            proof {
                assert(self.state() == spec_dispatch(opcode, bytecode@, pre).0);
            }
            r
        } else if opcode == opcodes::SSTORE {
            let r = handle_sstore(&mut self.storage, &mut self.stack);
            proof {
                assert(self.state() == spec_dispatch(opcode, bytecode@, pre).0);
            }
            r
        } else if opcode == opcodes::POP {
            let r = match self.stack.pop() {
                Ok(_) => Ok(()),
                Err(e) => Err(e),
            };
            proof {
                assert(self.state() == spec_dispatch(opcode, bytecode@, pre).0);
            }
            r
        } else if opcodes::is_push(opcode) {
            let r = handle_push(opcode, &mut self.stack, bytecode, &mut self.pc);
            proof {
                assert(self.state() == spec_dispatch(opcode, bytecode@, pre).0);
            }
            r
        } else if opcodes::is_dup(opcode) {
            let r = handle_dup(opcode, &mut self.stack);
            proof {
                assert(self.state() == spec_dispatch(opcode, bytecode@, pre).0);
            }
            r
        } else if opcodes::is_swap(opcode) {
            let r = handle_swap(opcode, &mut self.stack);
            proof {
                assert(self.state() == spec_dispatch(opcode, bytecode@, pre).0);
            }
            r
        } else {
            Err(EvmError::InvalidOpcode(opcode))
        }
    }

    /// Run the bytecode from the start: the program counter and halt
    /// flag are reset, then the machine steps until it halts or fails.
    /// The final stack, storage, memory and outcome are exactly what
    /// `spec_run` says of the reset state; storage persists from
    /// earlier runs of the same machine.
    pub fn execute(&mut self, bytecode: &[u8]) -> (r: Result<(), EvmError>)
        requires
            old(self).wf(),
            bytecode@.len() + 33 <= usize::MAX,
        ensures
            final(self).wf(),
            ({
                let init = MachineState {
                    stack: old(self).state().stack,
                    storage: old(self).state().storage,
                    mem: old(self).state().mem,
                    pc: 0,
                    running: true,
                };
                let (st, err) = spec_run(bytecode@, init);
                &&& final(self).state() == st
                &&& r == (match err {
                    Option::None => Ok::<(), EvmError>(()),
                    Option::Some(e) => Err::<(), EvmError>(e),
                })
            }),
    {
        self.pc = 0;
        self.running = true;
        let ghost init = self.state();

        #[verifier::loop_isolation(false)]
        while self.running && self.pc < bytecode.len()
            invariant
                self.wf(),
                bytecode@.len() + 33 <= usize::MAX,
                self.state().pc <= bytecode@.len(),
                spec_run(bytecode@, self.state()) == spec_run(bytecode@, init),
            decreases bytecode@.len() - self.state().pc + (if self.state().running {
                1int
            } else {
                0int
            }),
        {
            let ghost before = self.state();
            let opcode = bytecode[self.pc];
            self.pc += 1;
            let ghost fetched = self.state();
            proof {
                assert(fetched == MachineState { pc: (before.pc + 1) as nat, ..before });
            }
            let res = self.execute_opcode(opcode, bytecode);
            proof {
                lemma_step_advances(bytecode@, before);
                let (st, err) = spec_dispatch(opcode, bytecode@, fetched);
                assert(spec_step(bytecode@, before) == (st, err));
                assert(spec_run(bytecode@, before) == (if err is Some {
                    (st, err)
                } else if st.pc <= before.pc || st.pc > bytecode@.len() {
                    (st, err)
                } else {
                    spec_run(bytecode@, st)
                }));
            }
            match res {
                Err(e) => {
                    return Err(e);
                },
                Ok(()) => (),
            }
        }
        Ok(())
    }

    /// The top of the stack, or `StackUnderflow` when it is empty.
    pub fn stack_top(&self) -> (r: Result<Word, EvmError>)
        ensures
            self.state().stack.len() > 0 ==> r == Ok::<Word, EvmError>(self.state().stack.last()),
            self.state().stack.len() == 0 ==> r == Err::<Word, EvmError>(EvmError::StackUnderflow),
    {
        self.stack.top()
    }

    /// The operand stack, for inspection.
    pub fn stack(&self) -> (r: &Stack)
        ensures
            r@ == self.state().stack,
    {
        &self.stack
    }

    /// The storage, for inspection.
    pub fn storage(&self) -> (r: &Storage)
        ensures
            r@ == self.state().storage,
    {
        &self.storage
    }

    /// The memory, for inspection.
    pub fn memory(&self) -> (r: &Memory)
        ensures
            r@ == self.state().mem,
    {
        &self.memory
    }
}

} // verus!
