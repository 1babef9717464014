//! A forward cursor over the entries of one block.

use vstd::prelude::*;
use std::sync::Arc;
use crate::block::Block;
use crate::codec::{get_u16, record_end, record_fits};
use crate::iterators::StorageIterator;
use crate::key::{compare_keys, key_lt, EntryView};
use crate::LsmError;

verus! {

/// Iterates on a block.
pub struct BlockIterator {
    /// The block, shared with other holders.
    block: Arc<Block>,
    /// The current key; empty once the iterator is past the last entry.
    key: Vec<u8>,
    /// Where the current value lies in the block's payload.
    value_range: (usize, usize),
    /// Index of the current entry.
    idx: usize,
}

impl BlockIterator {
    pub closed spec fn inv(&self) -> bool {
        let e = self.block.entries();
        let d = self.block.data@;
        &&& self.block.wf()
        &&& self.idx <= e.len()
        &&& self.idx < e.len() ==> {
            &&& self.key@ == e[self.idx as int].0
            &&& self.value_range.0 == record_end(d, self.block.offsets@[self.idx as int] as int)
                - e[self.idx as int].1.len()
            &&& self.value_range.1 == record_end(d, self.block.offsets@[self.idx as int] as int)
        }
        &&& self.idx == e.len() ==> self.key@.len() == 0
    }

    /// The block this iterator walks is well formed.
    pub closed spec fn block_ok(&self) -> bool {
        self.block.wf()
    }

    /// All entries of the block this iterator walks.
    pub closed spec fn entries(&self) -> Seq<EntryView> {
        self.block.entries()
    }

    /// Index of the current entry; the entry count once past the end.
    pub closed spec fn pos(&self) -> int {
        self.idx as int
    }

    pub proof fn lemma_remaining(&self)
        requires
            self.inv(),
        ensures
            self.block_ok(),
            0 <= self.pos() <= self.entries().len(),
            forall|i: int| 0 <= i < self.entries().len() ==> (#[trigger] self.entries()[i]).0.len() > 0,
            self.remaining() == self.entries().subrange(self.pos(), self.entries().len() as int),
    {
        assert forall|i: int| 0 <= i < self.entries().len() implies (#[trigger] self.entries()[i]).0.len() > 0 by {
            assert(record_fits(self.block.data@, self.block.offsets@[i] as int));
        }
    }

    fn new(block: Arc<Block>) -> (r: Self)
        requires
            block.wf(),
        ensures
            r.block == block,
            r.key@.len() == 0,
    {
        BlockIterator {
            block,
            key: Vec::new(),
            value_range: (0, 0),
            idx: 0,
        }
    }

    /// Creates a block iterator positioned at the first entry.
    pub fn create_and_seek_to_first(block: Arc<Block>) -> (r: Self)
        requires
            block.wf(),
        ensures
            r.inv(),
            r.entries() == block.entries(),
            r.pos() == 0,
            r.remaining() == block.entries(),
    {
        let mut it = Self::new(block);
        it.seek_to_first();
        it
    }

    /// Creates a block iterator positioned at the first entry whose key is
    /// at least `key`.
    pub fn create_and_seek_to_key(block: Arc<Block>, key: &[u8]) -> (r: Self)
        requires
            block.wf(),
        ensures
            r.inv(),
            r.entries() == block.entries(),
            seek_result(r.entries(), key@, r.pos()),
    {
        let mut it = Self::new(block);
        it.seek_to_key(key);
        it
    }

    /// Positions the iterator at the first entry.
    pub fn seek_to_first(&mut self)
        requires
            old(self).block_ok(),
        ensures
            final(self).inv(),
            final(self).entries() == old(self).entries(),
            final(self).pos() == 0,
    {
        self.seek_to_idx(0);
    }

    /// Positions the iterator at entry `idx`, or past the end.
    fn seek_to_idx(&mut self, idx: usize)
        requires
            old(self).block.wf(),
        ensures
            final(self).inv(),
            final(self).block == old(self).block,
            idx >= old(self).block.entries().len() ==> final(self).value_range == (0usize, 0usize)
                && final(self).key@.len() == 0,
            final(self).pos() == if idx < old(self).block.entries().len() {
                idx as int
            } else {
                old(self).block.entries().len() as int
            },
    {
        let n = self.block.offsets.len();
        if idx >= n {
            self.key.clear();
            self.value_range = (0, 0);
            self.idx = n;
            return;
        }
        let d = self.block.data.as_slice();
        let begin = self.block.offsets[idx] as usize;
        assert(record_fits(d@, self.block.offsets@[idx as int] as int));
        let key_len = get_u16(d, begin) as usize;
        let key = crate::codec::copy_range(d, begin + 2, begin + 2 + key_len);
        let value_len = get_u16(d, begin + 2 + key_len) as usize;
        self.key = key;
        self.value_range = (begin + 4 + key_len, begin + 4 + key_len + value_len);
        self.idx = idx;
    }

    /// Moves to the next entry; past the last one the iterator is invalid.
    pub fn next(&mut self)
        requires
            old(self).inv(),
        ensures
            final(self).inv(),
            final(self).entries() == old(self).entries(),
            final(self).pos() == if old(self).pos() < old(self).entries().len() {
                old(self).pos() + 1
            } else {
                old(self).pos()
            },
    {
        if self.idx < self.block.offsets.len() {
            self.seek_to_idx(self.idx + 1);
        }
    }

    /// Positions the iterator at the first entry whose key is at least `key`,
    /// scanning from the start of the block.
    pub fn seek_to_key(&mut self, key: &[u8])
        requires
            old(self).block_ok(),
        ensures
            final(self).inv(),
            final(self).entries() == old(self).entries(),
            seek_result(final(self).entries(), key@, final(self).pos()),
    {
        self.seek_to_idx(0);
        let mut found = false;
        while !found && self.idx < self.block.offsets.len()
            invariant
                self.inv(),
                self.entries() == old(self).entries(),
                forall|j: int| 0 <= j < self.idx ==> key_lt(#[trigger] self.entries()[j].0, key@),
                found ==> self.idx < self.entries().len() && !key_lt(self.entries()[self.idx as int].0, key@),
            decreases self.block.offsets@.len() - self.idx, if found { 0int } else { 1int },
        {
            match compare_keys(self.key.as_slice(), key) {
                core::cmp::Ordering::Less => {
                    self.next();
                },
                _ => {
                    found = true;
                },
            }
        }
    }

    /// The key of the current entry.
    pub fn key(&self) -> (r: &[u8])
        requires
            self.inv(),
            self.pos() < self.entries().len(),
        ensures
            r@ == self.entries()[self.pos()].0,
    {
        self.key.as_slice()
    }

    /// The value of the current entry, borrowed from the block.
    pub fn value(&self) -> (r: &[u8])
        requires
            self.inv(),
            self.pos() < self.entries().len(),
        ensures
            r@ == self.entries()[self.pos()].1,
    {
        vstd::slice::slice_subrange(self.block.data.as_slice(), self.value_range.0, self.value_range.1)
    }

    /// Whether the iterator stands on an entry.
    pub fn is_valid(&self) -> (r: bool)
        requires
            self.inv(),
        ensures
            r == (self.pos() < self.entries().len()),
    {
        self.key.len() != 0
    }
}

/// `pos` is the first index of `e` whose key is at least `k`, or `e.len()`
/// where there is none.
pub open spec fn seek_result(e: Seq<EntryView>, k: Seq<u8>, pos: int) -> bool {
    &&& 0 <= pos <= e.len()
    &&& forall|j: int| 0 <= j < pos ==> key_lt(#[trigger] e[j].0, k)
    &&& pos < e.len() ==> !key_lt(e[pos].0, k)
}

impl StorageIterator for BlockIterator {
    open spec fn inv(&self) -> bool {
        self.inv()
    }

    open spec fn remaining(&self) -> Seq<EntryView> {
        self.entries().subrange(self.pos(), self.entries().len() as int)
    }

    open spec fn reliable(&self) -> bool {
        true
    }

    open spec fn fails_with(&self, e: LsmError) -> bool {
        false
    }

    fn key(&self) -> (r: &[u8]) {
        BlockIterator::key(self)
    }

    fn value(&self) -> (r: &[u8]) {
        BlockIterator::value(self)
    }

    fn is_valid(&self) -> (r: bool) {
        BlockIterator::is_valid(self)
    }

    fn next(&mut self) -> (r: Result<(), LsmError>) {
        BlockIterator::next(self);
        assert(final(self).remaining() =~= if old(self).remaining().len() > 0 {
            old(self).remaining().drop_first()
        } else {
            old(self).remaining()
        });
        Ok(())
    }
}

} // verus!
