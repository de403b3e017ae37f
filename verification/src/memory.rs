//! Byte-addressed working memory.  On any access the backing store
//! grows so that its length is the smallest multiple of 32 covering the
//! access; bytes never written read as zero, and memory never shrinks.

use crate::word::Word;
use vstd::prelude::*;

verus! {

/// The smallest multiple of 32 that is at least `n`.
pub open spec fn round_up_32(n: nat) -> nat {
    ((n + 31) / 32) * 32
}

/// The length the backing store has after an access needing `target`
/// bytes: unchanged if already long enough, else rounded up to 32.
pub open spec fn grown_len(old_len: nat, target: nat) -> nat {
    if target <= old_len {
        old_len
    } else {
        round_up_32(target)
    }
}

/// The contents after growing for an access needing `target` bytes:
/// the old bytes followed by zeroes.
pub open spec fn grown_bytes(s: Seq<u8>, target: nat) -> Seq<u8> {
    s + Seq::new((grown_len(s.len(), target) - s.len()) as nat, |i: int| 0u8)
}

/// Expandable byte memory; its view is the byte sequence it holds.
pub struct Memory {
    data: Vec<u8>,
}

impl View for Memory {
    type V = Seq<u8>;

    closed spec fn view(&self) -> Seq<u8> {
        self.data@
    }
}

impl Memory {
    /// Empty memory.
    pub fn new() -> (r: Memory)
        ensures
            r@ == Seq::<u8>::empty(),
    {
        Memory { data: Vec::new() }
    }

    /// Grow the backing store, if needed, to the smallest multiple of 32
    /// that holds `target` bytes.  New bytes are zero; old bytes keep
    /// their values; memory never shrinks.
    pub fn expand_to(&mut self, target: usize)
        requires
            target + 31 <= usize::MAX,
        ensures
            final(self)@ == grown_bytes(old(self)@, target as nat),
            final(self)@.len() >= target,
    {
        proof {
            vstd::arithmetic::div_mod::lemma_fundamental_div_mod((target + 31) as int, 32);
        }
        if target > self.data.len() {
            let new_len = ((target + 31) / 32) * 32;
            let ghost olds = self.data@;
            self.data.resize(new_len, 0u8);
            proof {
                assert(self.data@ =~= grown_bytes(olds, target as nat));
            }
        } else {
            proof {
                assert(self.data@ =~= grown_bytes(self.data@, target as nat));
            }
        }
    }

    /// Write one byte, growing memory to cover it.
    pub fn write(&mut self, offset: &Word, value: u8)
        requires
            offset@ + 32 <= usize::MAX,
        ensures
            final(self)@ == grown_bytes(old(self)@, (offset@ + 1) as nat).update(
                offset@ as int,
                value,
            ),
    {
        let o = self.offset_to_usize(offset);
        self.expand_to(o + 1);
        self.data[o] = value;
    }

    /// Read one byte, growing memory to cover it; a byte never written
    /// reads as zero.
    pub fn read(&mut self, offset: &Word) -> (r: u8)
        requires
            offset@ + 32 <= usize::MAX,
        ensures
            final(self)@ == grown_bytes(old(self)@, (offset@ + 1) as nat),
            r == final(self)@[offset@ as int],
    {
        let o = self.offset_to_usize(offset);
        self.expand_to(o + 1);
        self.data[o]
    }

    /// Write a run of bytes starting at `offset`, growing memory to
    /// cover the run; bytes outside the run keep their values.
    pub fn write_bytes(&mut self, offset: &Word, data: &[u8])
        requires
            offset@ + data@.len() + 32 <= usize::MAX,
        ensures
            final(self)@.len() == grown_len(old(self)@.len(), (offset@ + data@.len()) as nat),
            forall|j: int|
                0 <= j < final(self)@.len() && !(offset@ <= j < offset@ + data@.len())
                    ==> final(self)@[j] == grown_bytes(old(self)@, (offset@ + data@.len()) as nat)[j],
            forall|j: int|
                offset@ <= j < offset@ + data@.len() ==> final(self)@[j] == data@[j - offset@],
    {
        let o = self.offset_to_usize(offset);
        let n = data.len();
        self.expand_to(o + n);
        let ghost base = self.data@;
        let mut i: usize = 0;
        while i < n
            invariant
                n == data@.len(),
                o + n <= usize::MAX,
                o + n <= self.data@.len(),
                i <= n,
                self.data@.len() == base.len(),
                forall|j: int| 0 <= j < self.data@.len() && !(o <= j < o + i) ==> self.data@[j]
                    == base[j],
                forall|j: int| o <= j < o + i ==> self.data@[j] == data@[j - o],
            decreases n - i,
        {
            self.data[o + i] = data[i];
            i += 1;
        }
    }

    /// Read a run of `size` bytes starting at `offset`, growing memory
    /// to cover the run; bytes never written read as zero.
    pub fn read_bytes(&mut self, offset: &Word, size: usize) -> (r: Vec<u8>)
        requires
            offset@ + size + 32 <= usize::MAX,
        ensures
            final(self)@ == grown_bytes(old(self)@, (offset@ + size) as nat),
            r@ == final(self)@.subrange(offset@ as int, offset@ + size),
    {
        let o = self.offset_to_usize(offset);
        self.expand_to(o + size);
        let mut r: Vec<u8> = Vec::with_capacity(size);
        let mut i: usize = 0;
        while i < size
            invariant
                o + size <= usize::MAX,
                o + size <= self.data@.len(),
                i <= size,
                r@ == self.data@.subrange(o as int, o + i),
            decreases size - i,
        {
            r.push(self.data[o + i]);
            proof {
                assert(r@ =~= self.data@.subrange(o as int, o + i + 1));
            }
            i += 1;
        }
        r
    }

    /// The current length of memory in bytes.
    pub fn size(&self) -> (r: usize)
        ensures
            r == self@.len(),
    {
        self.data.len()
    }

    /// Narrow a word offset to a machine index.
    fn offset_to_usize(&self, offset: &Word) -> (r: usize)
        requires
            offset@ <= usize::MAX,
        ensures
            r == offset@,
    {
        offset.to_u64() as usize
    }
}

} // verus!
