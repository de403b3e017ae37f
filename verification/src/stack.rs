//! The bounded operand stack: at most 1024 words, the top is the most
//! recently pushed entry.  Its view is the sequence of entries, bottom
//! first.

use crate::error::EvmError;
use crate::word::Word;
use vstd::prelude::*;

verus! {

/// The strict upper bound on the number of stack entries.
pub const MAX_STACK_SIZE: usize = 1024;

/// A bounded LIFO stack of words.
pub struct Stack {
    data: Vec<Word>,
}

impl View for Stack {
    type V = Seq<Word>;

    closed spec fn view(&self) -> Seq<Word> {
        self.data@
    }
}

impl Stack {
    /// The stack never holds more than 1024 entries.
    pub open spec fn wf(&self) -> bool {
        self@.len() <= MAX_STACK_SIZE
    }

    /// An empty stack.
    pub fn new() -> (r: Stack)
        ensures
            r@ == Seq::<Word>::empty(),
            r.wf(),
    {
        Stack { data: Vec::with_capacity(MAX_STACK_SIZE) }
    }

    /// Append `value` at the top; fails with `StackOverflow` exactly
    /// when the stack already holds 1024 entries, leaving it unchanged.
    pub fn push(&mut self, value: Word) -> (r: Result<(), EvmError>)
        requires
            old(self).wf(),
        ensures
            final(self).wf(),
            old(self)@.len() < MAX_STACK_SIZE ==> r == Ok::<(), EvmError>(()) && final(self)@
                == old(self)@.push(value),
            old(self)@.len() == MAX_STACK_SIZE ==> r == Err::<(), EvmError>(
                EvmError::StackOverflow,
            ) && final(self)@ == old(self)@,
    {
        if self.data.len() >= MAX_STACK_SIZE {
            return Err(EvmError::StackOverflow);
        }
        self.data.push(value);
        Ok(())
    }

    /// Remove and return the top entry; fails with `StackUnderflow`
    /// exactly when the stack is empty.
    pub fn pop(&mut self) -> (r: Result<Word, EvmError>)
        requires
            old(self).wf(),
        ensures
            final(self).wf(),
            old(self)@.len() > 0 ==> r == Ok::<Word, EvmError>(old(self)@.last()) && final(self)@
                == old(self)@.drop_last(),
            old(self)@.len() == 0 ==> r == Err::<Word, EvmError>(EvmError::StackUnderflow)
                && final(self)@ == old(self)@,
    {
        match self.data.pop() {
            Some(v) => Ok(v),
            None => Err(EvmError::StackUnderflow),
        }
    }

    /// The top entry, without removing it; `StackUnderflow` exactly
    /// when the stack is empty.
    pub fn top(&self) -> (r: Result<Word, EvmError>)
        ensures
            self@.len() > 0 ==> r == Ok::<Word, EvmError>(self@.last()),
            self@.len() == 0 ==> r == Err::<Word, EvmError>(EvmError::StackUnderflow),
    {
        if self.data.len() == 0 {
            Err(EvmError::StackUnderflow)
        } else {
            Ok(self.data[self.data.len() - 1])
        }
    }

    /// The entry at absolute index `index` (0 is the bottom);
    /// `StackUnderflow` exactly when the index is out of range.
    pub fn at(&self, index: usize) -> (r: Result<Word, EvmError>)
        ensures
            index < self@.len() ==> r == Ok::<Word, EvmError>(self@[index as int]),
            index >= self@.len() ==> r == Err::<Word, EvmError>(EvmError::StackUnderflow),
    {
        if index < self.data.len() {
            Ok(self.data[index])
        } else {
            Err(EvmError::StackUnderflow)
        }
    }

    /// How many entries the stack holds.
    pub fn len(&self) -> (r: usize)
        ensures
            r == self@.len(),
    {
        self.data.len()
    }

    /// Does the stack hold no entry?
    pub fn is_empty(&self) -> (r: bool)
        ensures
            r == (self@.len() == 0),
    {
        self.data.is_empty()
    }

    /// Exchange the entries at absolute indices `index_a` and `index_b`;
    /// `StackUnderflow` exactly when either index is out of range, the
    /// stack then unchanged.
    pub fn swap(&mut self, index_a: usize, index_b: usize) -> (r: Result<(), EvmError>)
        requires
            old(self).wf(),
        ensures
            final(self).wf(),
            index_a < old(self)@.len() && index_b < old(self)@.len() ==> r == Ok::<(), EvmError>(())
                && final(self)@ == old(self)@.update(
                index_a as int,
                old(self)@[index_b as int],
            ).update(index_b as int, old(self)@[index_a as int]),
            index_a >= old(self)@.len() || index_b >= old(self)@.len() ==> r == Err::<(), EvmError>(
                EvmError::StackUnderflow,
            ) && final(self)@ == old(self)@,
    {
        let len = self.data.len();
        if index_a >= len || index_b >= len {
            return Err(EvmError::StackUnderflow);
        }
        let va = self.data[index_a];
        let vb = self.data[index_b];
        self.data[index_a] = vb;
        self.data[index_b] = va;
        Ok(())
    }

    /// The entry `depth` below the top (0 is the top itself);
    /// `StackUnderflow` exactly when the stack is too shallow.
    pub fn peek(&self, depth: usize) -> (r: Result<Word, EvmError>)
        ensures
            depth < self@.len() ==> r == Ok::<Word, EvmError>(
                self@[self@.len() - 1 - depth as int],
            ),
            depth >= self@.len() ==> r == Err::<Word, EvmError>(EvmError::StackUnderflow),
    {
        if depth >= self.data.len() {
            Err(EvmError::StackUnderflow)
        } else {
            Ok(self.data[self.data.len() - 1 - depth])
        }
    }
}

/// Duplicating the entry `k` below the top and then popping the copy
/// returns the stack to its prior state.
pub proof fn lemma_dup_then_pop(s: Seq<Word>, k: nat)
    requires
        1 <= k <= s.len(),
    ensures
        s.push(s[s.len() - k]).drop_last() == s,
{
    assert(s.push(s[s.len() - k]).drop_last() =~= s);
}

/// Swapping the same two positions twice is the identity.
pub proof fn lemma_swap_twice(s: Seq<Word>, i: nat, j: nat)
    requires
        i < s.len(),
        j < s.len(),
    ensures
        ({
            let t = s.update(i as int, s[j as int]).update(j as int, s[i as int]);
            t.update(i as int, t[j as int]).update(j as int, t[i as int]) == s
        }),
{
    let t = s.update(i as int, s[j as int]).update(j as int, s[i as int]);
    assert(t.update(i as int, t[j as int]).update(j as int, t[i as int]) =~= s);
}

} // verus!
