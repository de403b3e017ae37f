//! Persistent key/value storage: a mapping from words to words where
//! every key that was never written reads as zero.  Its view is the
//! mathematical map of the written entries.

use crate::word::Word;
use vstd::prelude::*;

verus! {

/// The map denoted by a sequence of writes: later entries overwrite
/// earlier ones.
pub open spec fn entries_map(s: Seq<(Word, Word)>) -> Map<Word, Word>
    decreases s.len(),
{
    if s.len() == 0 {
        Map::empty()
    } else {
        entries_map(s.drop_last()).insert(s.last().0, s.last().1)
    }
}

/// What a read of `key` returns under map `m`: the stored value, or the
/// zero word for a key never written.
pub open spec fn spec_read(m: Map<Word, Word>, key: Word) -> Word {
    if m.contains_key(key) {
        m[key]
    } else {
        Word { l0: 0, l1: 0, l2: 0, l3: 0 }
    }
}

/// The storage of one machine: a log of writes, read back as a map.
pub struct Storage {
    data: Vec<(Word, Word)>,
}

impl View for Storage {
    type V = Map<Word, Word>;

    closed spec fn view(&self) -> Map<Word, Word> {
        entries_map(self.data@)
    }
}

impl Storage {
    /// Empty storage: every key reads as zero.
    pub fn new() -> (r: Storage)
        ensures
            r@ == Map::<Word, Word>::empty(),
    {
        Storage { data: Vec::new() }
    }

    /// Insert or overwrite: after the call the map holds `value` at `key`.
    pub fn write(&mut self, key: Word, value: Word)
        ensures
            final(self)@ == old(self)@.insert(key, value),
    {
        let ghost olds = self.data@;
        self.data.push((key, value));
        proof {
            assert(self.data@.drop_last() =~= olds);
        }
    }

    /// The value stored at `key`, or zero if the key was never written.
    pub fn read(&self, key: &Word) -> (r: Word)
        ensures
            r == spec_read(self@, *key),
    {
        let n = self.data.len();
        let mut i: usize = n;
        proof {
            assert(self.data@.take(n as int) =~= self.data@);
        }
        while i > 0
            invariant
                i <= n,
                n == self.data@.len(),
                spec_read(entries_map(self.data@), *key) == spec_read(
                    entries_map(self.data@.take(i as int)),
                    *key,
                ),
            decreases i,
        {
            let entry = self.data[i - 1];
            proof {
                assert(self.data@.take(i as int).drop_last() =~= self.data@.take(i - 1));
                assert(self.data@.take(i as int).last() == self.data@[i - 1]);
            }
            if entry.0 == *key {
                return entry.1;
            }
            i -= 1;
        }
        proof {
            assert(self.data@.take(0) =~= Seq::<(Word, Word)>::empty());
        }
        Word::zero()
    }
}

/// Writing a value and then reading the same key gives that value back,
/// whatever was stored before.
pub proof fn lemma_write_then_read(m: Map<Word, Word>, key: Word, value: Word)
    ensures
        spec_read(m.insert(key, value), key) == value,
{
}

/// Writing one key leaves every other key reading as before.
pub proof fn lemma_write_preserves_others(m: Map<Word, Word>, key: Word, value: Word, other: Word)
    requires
        other != key,
    ensures
        spec_read(m.insert(key, value), other) == spec_read(m, other),
{
}

/// A key never written reads as zero.
pub proof fn lemma_absent_reads_zero(key: Word)
    ensures
        spec_read(Map::<Word, Word>::empty(), key)@ == 0,
{
}

} // verus!
