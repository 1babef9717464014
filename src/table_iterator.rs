//! A forward cursor across all blocks of a table.

use vstd::prelude::*;
use std::sync::Arc;
use crate::block::Block;
use crate::block_iterator::{seek_result, BlockIterator};
use crate::iterators::StorageIterator;
use crate::key::{key_lt, lemma_key_lt_transitive, EntryView};
use crate::table::{block_ok, SsTable};
use crate::LsmError;

verus! {

/// The entries of a run of blocks, in order.
pub open spec fn flatten(bs: Seq<Seq<EntryView>>) -> Seq<EntryView>
    decreases bs.len(),
{
    if bs.len() == 0 {
        Seq::empty()
    } else {
        bs[0] + flatten(bs.drop_first())
    }
}

/// Position `(b, j)` is where a seek for `k` lands: every entry before it
/// lies below `k`, the entry at it (if any) does not, and it is past the end
/// of a block only in the last block.
pub open spec fn table_seek_result(bs: Seq<Seq<EntryView>>, k: Seq<u8>, b: int, j: int) -> bool {
    &&& 0 <= b < bs.len()
    &&& forall|i: int, q: int| 0 <= i < b && 0 <= q < bs[i].len() ==> key_lt(#[trigger] bs[i][q].0, k)
    &&& seek_result(bs[b], k, j)
    &&& j == bs[b].len() ==> b == bs.len() - 1
}

/// An iterator over the contents of a table.
pub struct SsTableIterator {
    table: Arc<SsTable>,
    blk_iter: BlockIterator,
    blk_idx: usize,
}

impl SsTableIterator {
    /// The iterator walks the current block, or stands past the end after a
    /// failed read; the current block may be exhausted.
    closed spec fn inv_loose(&self) -> bool {
        let bs = self.table.blocks();
        &&& self.table.wf()
        &&& self.blk_iter.inv()
        &&& bs.len() == 0 ==> self.blk_iter.pos() == self.blk_iter.entries().len()
        &&& bs.len() > 0 ==> {
            &&& self.blk_idx < bs.len()
            &&& (self.blk_iter.entries() == bs[self.blk_idx as int] || (self.blk_iter.entries().len()
                == 0 && self.blk_idx == bs.len() - 1))
        }
    }

    pub closed spec fn inv(&self) -> bool {
        &&& self.inv_loose()
        &&& self.table.blocks().len() > 0 && self.blk_iter.pos() == self.blk_iter.entries().len()
            ==> self.blk_idx == self.table.blocks().len() - 1
    }

    /// The table walked is sound (see `SsTable::sound`).
    pub closed spec fn table_sound(&self) -> bool {
        self.table.sound()
    }

    /// Block `i` of the table walked lies in the file and decodes.
    pub closed spec fn block_decodes(&self, i: int) -> bool {
        self.table.block_decodes(i)
    }

    /// The largest key of the table walked.
    pub closed spec fn table_last_key(&self) -> Seq<u8> {
        self.table.last_key_spec()
    }

    /// The entries of each block of the table.
    pub closed spec fn table_blocks(&self) -> Seq<Seq<EntryView>> {
        self.table.blocks()
    }

    /// Index of the current block.
    pub closed spec fn block_index(&self) -> int {
        self.blk_idx as int
    }

    /// Index of the current entry within the current block; the block's
    /// length once it is exhausted.
    pub closed spec fn pos_in_block(&self) -> int {
        let bs = self.table.blocks();
        if bs.len() > 0 && self.blk_iter.entries() == bs[self.blk_idx as int] {
            self.blk_iter.pos()
        } else if bs.len() > 0 {
            bs[self.blk_idx as int].len() as int
        } else {
            0
        }
    }

    /// The entries from the current position to the end of the table.
    pub closed spec fn rest(&self) -> Seq<EntryView> {
        let bs = self.table.blocks();
        if bs.len() == 0 {
            Seq::empty()
        } else {
            let b = self.blk_idx as int;
            bs[b].subrange(self.pos_in_block(), bs[b].len() as int) + flatten(
                bs.subrange(b + 1, bs.len() as int),
            )
        }
    }

    /// What remains is the rest of the current block, then every later
    /// block.
    pub proof fn lemma_position(&self)
        requires
            self.inv(),
        ensures
            self.table_blocks().len() == 0 ==> self.rest().len() == 0,
            self.table_blocks().len() > 0 ==> {
                let bs = self.table_blocks();
                let b = self.block_index();
                &&& 0 <= b < bs.len()
                &&& 0 <= self.pos_in_block() <= bs[b].len()
                &&& self.rest() == bs[b].subrange(self.pos_in_block(), bs[b].len() as int) + flatten(
                    bs.subrange(b + 1, bs.len() as int),
                )
            },
    {
        self.lemma_rest_loose();
    }

    proof fn lemma_rest_loose(&self)
        requires
            self.inv_loose(),
        ensures
            self.table.blocks().len() > 0 ==> {
                let bs = self.table.blocks();
                let b = self.blk_idx as int;
                &&& 0 <= self.pos_in_block() <= bs[b].len()
                &&& bs[b].subrange(self.pos_in_block(), bs[b].len() as int) == self.blk_iter.remaining()
            },
    {
        self.blk_iter.lemma_remaining();
        let bs = self.table.blocks();
        if bs.len() > 0 && self.blk_iter.entries() != bs[self.blk_idx as int] {
            let e = bs[self.blk_idx as int];
            assert(e.subrange(e.len() as int, e.len() as int) =~= self.blk_iter.remaining());
        }
    }

    proof fn lemma_rest(&self)
        requires
            self.inv(),
        ensures
            self.rest().len() == 0 <==> self.blk_iter.remaining().len() == 0,
            self.rest().len() > 0 ==> self.rest()[0] == self.blk_iter.remaining()[0],
    {
        self.lemma_rest_loose();
        self.blk_iter.lemma_remaining();
        let bs = self.table.blocks();
        if bs.len() == 0 {
            assert(self.blk_iter.remaining() =~= Seq::<EntryView>::empty());
        } else if self.blk_iter.pos() == self.blk_iter.entries().len() {
            assert(bs.subrange(self.blk_idx + 1, bs.len() as int) =~= Seq::<Seq<EntryView>>::empty());
        }
    }

    fn empty_iter() -> (r: BlockIterator)
        ensures
            r.inv(),
            r.entries().len() == 0,
            r.pos() == 0,
    {
        let b = Block { data: Vec::new(), offsets: Vec::new() };
        assert(b.entries() =~= Seq::<EntryView>::empty());
        BlockIterator::create_and_seek_to_first(Arc::new(b))
    }

    /// Puts the iterator past the end.
    fn set_failed(&mut self)
        requires
            old(self).table.wf(),
        ensures
            final(self).inv(),
            final(self).table == old(self).table,
            final(self).rest().len() == 0,
    {
        let n = self.table.num_of_blocks();
        self.blk_iter = Self::empty_iter();
        self.blk_idx = if n == 0 {
            0
        } else {
            n - 1
        };
        proof {
            let bs = self.table.blocks();
            if n > 0 {
                let e = bs[n - 1];
                assert(bs.subrange(n as int, n as int) =~= Seq::<Seq<EntryView>>::empty());
                assert(e.subrange(self.pos_in_block(), e.len() as int) =~= Seq::<EntryView>::empty());
                assert(self.rest() =~= Seq::<EntryView>::empty());
            }
        }
    }

    /// Moves past exhausted blocks to the next entry, if any.
    fn skip_exhausted(&mut self) -> (r: Result<(), LsmError>)
        requires
            old(self).inv_loose(),
        ensures
            final(self).inv(),
            final(self).table == old(self).table,
            r is Ok ==> final(self).rest() == old(self).rest(),
            r is Err ==> !old(self).table.sound() && final(self).rest().len() == 0,
            r matches Err(e) ==> (e == LsmError::Io || e == LsmError::Corruption) && exists|i: int|
                old(self).blk_idx < i < old(self).table.blocks().len() && !old(self).table.block_decodes(i),
            (forall|i: int| old(self).blk_idx < i < old(self).table.blocks().len() ==> #[trigger] old(
                self,
            ).table.block_decodes(i)) ==> r is Ok,
            old(self).table.sound() ==> r is Ok,
    {
        let n = self.table.num_of_blocks();
        proof {
            self.table.lemma_len();
            if self.table.sound() {
                self.table.lemma_sound_decodes();
            }
        }
        while n > 0 && self.blk_idx + 1 < n && !self.blk_iter.is_valid()
            invariant
                self.inv_loose(),
                self.table == old(self).table,
                self.rest() == old(self).rest(),
                self.blk_idx >= old(self).blk_idx,
                n == self.table.blocks().len(),
                n == self.table.metas().len(),
            decreases n - self.blk_idx,
        {
            let next = self.blk_idx + 1;
            let ghost bs = self.table.blocks();
            let ghost b = self.blk_idx as int;
            let ghost opos = self.pos_in_block();
            proof {
                self.lemma_rest_loose();
                self.blk_iter.lemma_remaining();
                assert(bs[b].subrange(opos, bs[b].len() as int).len() == 0);
                assert(bs[b].subrange(opos, bs[b].len() as int) =~= Seq::<EntryView>::empty());
            }
            match self.table.read_block_cached(next) {
                Err(e) => {
                    proof {
                        self.table.lemma_len();
                        assert(!self.table.block_decodes(next as int));
                        if self.table.sound() {
                            self.table.lemma_sound_decodes();
                        }
                    }
                    self.set_failed();
                    return Err(e);
                },
                Ok(block) => {
                    self.blk_iter = BlockIterator::create_and_seek_to_first(block);
                    self.blk_idx = next;
                    proof {
                        let t = bs.subrange(b + 1, bs.len() as int);
                        assert(t.drop_first() =~= bs.subrange(b + 2, bs.len() as int));
                        assert(bs[b + 1].subrange(0, bs[b + 1].len() as int) =~= bs[b + 1]);
                        assert(self.rest() =~= old(self).rest());
                    }
                },
            }
        }
        Ok(())
    }

    /// Creates an iterator positioned at the first entry of the table.
    /// Fails only where a block it reads is unsound.
    pub fn create_and_seek_to_first(table: Arc<SsTable>) -> (r: Result<Self, LsmError>)
        requires
            table.wf(),
        ensures
            table.sound() ==> r is Ok,
            r is Err ==> !table.sound(),
            (forall|i: int| 0 <= i < table.metas().len() ==> #[trigger] table.block_decodes(i)) ==> r is Ok,
            r matches Err(e) ==> (e == LsmError::Io || e == LsmError::Corruption) && exists|i: int|
                0 <= i < table.metas().len() && !table.block_decodes(i),
            r matches Ok(it) ==> it.inv() && it.table_blocks() == table.blocks() && it.table_sound()
                == table.sound() && it.table_last_key() == table.last_key_spec() && it.rest()
                == flatten(table.blocks()),
    {
        proof {
            table.lemma_len();
        }
        let mut it = Self::new_past_end(table);
        let ghost it0 = it;
        let r = it.seek_to_first();
        proof {
            if r is Err {
                let i = choose|i: int| 0 <= i < it0.table_blocks().len() && !it0.block_decodes(i);
                assert(!table.block_decodes(i));
            }
        }
        match r {
            Ok(()) => Ok(it),
            Err(e) => Err(e),
        }
    }

    fn new_past_end(table: Arc<SsTable>) -> (r: Self)
        requires
            table.wf(),
        ensures
            r.inv(),
            r.table == table,
    {
        let n = table.num_of_blocks();
        let last = if n == 0 {
            0
        } else {
            n - 1
        };
        SsTableIterator { table, blk_iter: Self::empty_iter(), blk_idx: last }
    }

    /// Positions the iterator at the first entry of the table.
    pub fn seek_to_first(&mut self) -> (r: Result<(), LsmError>)
        requires
            old(self).inv(),
        ensures
            final(self).inv(),
            final(self).table_blocks() == old(self).table_blocks(),
            final(self).table_sound() == old(self).table_sound(),
            final(self).table_last_key() == old(self).table_last_key(),
            old(self).table_sound() ==> r is Ok,
            r is Err ==> !old(self).table_sound() && final(self).rest().len() == 0,
            (forall|i: int| 0 <= i < old(self).table_blocks().len() ==> #[trigger] old(self).block_decodes(i))
                ==> r is Ok,
            r matches Err(e) ==> (e == LsmError::Io || e == LsmError::Corruption) && exists|i: int|
                0 <= i < old(self).table_blocks().len() && !old(self).block_decodes(i),
            r is Ok ==> final(self).rest() == flatten(old(self).table_blocks()),
    {
        proof {
            self.table.lemma_len();
        }
        let n = self.table.num_of_blocks();
        if n == 0 {
            self.blk_iter = Self::empty_iter();
            self.blk_idx = 0;
            return Ok(());
        }
        let ghost bs = self.table.blocks();
        match self.table.read_block_cached(0) {
            Err(e) => {
                proof {
                    assert(!self.block_decodes(0));
                    if self.table.sound() {
                        self.table.lemma_sound_decodes();
                    }
                }
                self.set_failed();
                return Err(e);
            },
            Ok(block) => {
                self.blk_iter = BlockIterator::create_and_seek_to_first(block);
                self.blk_idx = 0;
            },
        }
        assert(bs[0].subrange(0, bs[0].len() as int) =~= bs[0]);
        assert(bs.subrange(1, bs.len() as int) =~= bs.drop_first());
        assert(self.rest() =~= flatten(bs));
        proof {
            if forall|i: int| 0 <= i < n ==> #[trigger] old(self).block_decodes(i) {
                assert forall|i: int| self.blk_idx < i < n implies #[trigger] self.table.block_decodes(i) by {
                    assert(old(self).block_decodes(i));
                }
            }
        }
        let r = self.skip_exhausted();
        proof {
            if r is Err {
                let i = choose|i: int| 0 < i < n && !self.table.block_decodes(i);
                assert(!old(self).block_decodes(i));
            }
        }
        r
    }

    /// Creates an iterator positioned at the first entry whose key is at
    /// least `key`. Fails only where a block it reads is unsound.
    pub fn create_and_seek_to_key(table: Arc<SsTable>, key: &[u8]) -> (r: Result<Self, LsmError>)
        requires
            table.wf(),
        ensures
            table.sound() ==> r is Ok,
            r is Err ==> !table.sound(),
            (forall|i: int| 0 <= i < table.metas().len() ==> #[trigger] table.block_decodes(i)) ==> r is Ok,
            r matches Err(e) ==> (e == LsmError::Io || e == LsmError::Corruption) && exists|i: int|
                0 <= i < table.metas().len() && !table.block_decodes(i),
            r matches Ok(it) ==> it.inv() && it.table_blocks() == table.blocks() && it.table_sound()
                == table.sound() && it.table_last_key() == table.last_key_spec(),
            r matches Ok(it) ==> seek_landing(
                table.sound(),
                table.blocks(),
                table.last_key_spec(),
                key@,
                it.block_index(),
                it.pos_in_block(),
                it.rest(),
            ),
    {
        proof {
            table.lemma_len();
        }
        let mut it = Self::new_past_end(table);
        let ghost it0 = it;
        let r = it.seek_to_key(key);
        proof {
            if r is Err {
                let i = choose|i: int| 0 <= i < it0.table_blocks().len() && !it0.block_decodes(i);
                assert(!table.block_decodes(i));
            }
        }
        match r {
            Ok(()) => Ok(it),
            Err(e) => Err(e),
        }
    }

    /// Positions the iterator at the first entry whose key is at least
    /// `key`; past the end where every key lies below it.
    pub fn seek_to_key(&mut self, key: &[u8]) -> (r: Result<(), LsmError>)
        requires
            old(self).inv(),
        ensures
            final(self).inv(),
            final(self).table_blocks() == old(self).table_blocks(),
            final(self).table_sound() == old(self).table_sound(),
            final(self).table_last_key() == old(self).table_last_key(),
            old(self).table_sound() ==> r is Ok,
            r is Err ==> !old(self).table_sound() && final(self).rest().len() == 0,
            (forall|i: int| 0 <= i < old(self).table_blocks().len() ==> #[trigger] old(self).block_decodes(i))
                ==> r is Ok,
            r matches Err(e) ==> (e == LsmError::Io || e == LsmError::Corruption) && exists|i: int|
                0 <= i < old(self).table_blocks().len() && !old(self).block_decodes(i),
            r is Ok ==> seek_landing(
                old(self).table_sound(),
                old(self).table_blocks(),
                old(self).table_last_key(),
                key@,
                final(self).block_index(),
                final(self).pos_in_block(),
                final(self).rest(),
            ),
    {
        proof {
            self.table.lemma_len();
        }
        let n = self.table.num_of_blocks();
        if n == 0 {
            self.blk_iter = Self::empty_iter();
            self.blk_idx = 0;
            return Ok(());
        }
        let ghost bs = self.table.blocks();
        let ghost ms = self.table.metas();
        let idx = self.table.first_block_reaching(key);
        let b = if idx < n {
            idx
        } else {
            n - 1
        };
        let block = match self.table.read_block_cached(b) {
            Ok(bl) => bl,
            Err(e) => {
                proof {
                    assert(!self.block_decodes(b as int));
                    if self.table.sound() {
                        self.table.lemma_sound_decodes();
                    }
                }
                self.set_failed();
                return Err(e);
            },
        };
        self.blk_iter = BlockIterator::create_and_seek_to_key(block, key);
        self.blk_idx = b;
        proof {
            self.blk_iter.lemma_remaining();
            if self.table.sound() {
                self.table.lemma_wf();
                self.table.lemma_last_keys_ascending();
                assert forall|i: int, q: int| 0 <= i < b && 0 <= q < bs[i].len() implies key_lt(
                    #[trigger] bs[i][q].0,
                    key@,
                ) by {
                    self.table.lemma_entry_le_last(i, q);
                    assert(key_lt(ms[i].2, key@));
                    if bs[i][q].0 != ms[i].2 {
                        lemma_key_lt_transitive(bs[i][q].0, ms[i].2, key@);
                    }
                }
                let e = bs[b as int];
                if key_lt(self.table.last_key_spec(), key@) {
                    self.table.lemma_last_keys_ascending();
                    if idx < n {
                        if idx < n - 1 {
                            lemma_key_lt_transitive(ms[idx as int].2, ms[n - 1].2, key@);
                        }
                        crate::key::lemma_key_lt_asymmetric(ms[n - 1].2, key@);
                        assert(false);
                    }
                    assert forall|q: int| 0 <= q < e.len() implies key_lt(#[trigger] e[q].0, key@) by {
                        self.table.lemma_entry_le_last(b as int, q);
                        if e[q].0 != ms[b as int].2 {
                            lemma_key_lt_transitive(e[q].0, ms[b as int].2, key@);
                        }
                    }
                    assert(self.blk_iter.pos() == e.len());
                }
                if idx < n {
                    if self.blk_iter.pos() == e.len() {
                        assert(key_lt(e[e.len() - 1].0, key@));
                        assert(e.last().0 == ms[b as int].2);
                        assert(false);
                    }
                }
                assert(self.blk_iter.pos() < e.len() || b == n - 1);
            }
        }
        if !self.blk_iter.is_valid() && self.blk_idx + 1 < n {
            proof {
                if forall|i: int| 0 <= i < n ==> #[trigger] old(self).block_decodes(i) {
                    assert forall|i: int| self.blk_idx < i < n implies #[trigger] self.table.block_decodes(i) by {
                        assert(old(self).block_decodes(i));
                    }
                }
            }
            let r = self.skip_exhausted();
            proof {
                if r is Err {
                    let i = choose|i: int| b < i < n && !self.table.block_decodes(i);
                    assert(!old(self).block_decodes(i));
                }
            }
            return r;
        }
        proof {
            self.lemma_rest_loose();
            let e = bs[b as int];
            let j = self.blk_iter.pos();
            if j == e.len() {
                assert(bs.subrange(b + 1, bs.len() as int) =~= Seq::<Seq<EntryView>>::empty());
                assert(e.subrange(j, e.len() as int) =~= Seq::<EntryView>::empty());
                assert(self.rest() =~= Seq::<EntryView>::empty());
            } else {
                assert(self.rest()[0] == e[j]);
            }
        }
        Ok(())
    }

    /// Moves to the next entry, loading the next block where the current one
    /// is exhausted; a no-op on an invalid iterator.
    pub fn next(&mut self) -> (r: Result<(), LsmError>)
        requires
            old(self).inv(),
        ensures
            final(self).inv(),
            final(self).table_blocks() == old(self).table_blocks(),
            final(self).table_sound() == old(self).table_sound(),
            final(self).table_last_key() == old(self).table_last_key(),
            old(self).table_sound() ==> r is Ok,
            old(self).rest().len() == 0 ==> r is Ok && final(self).rest() == old(self).rest(),
            r is Err ==> !old(self).table_sound() && final(self).rest().len() == 0,
            (forall|i: int| old(self).block_index() < i < old(self).table_blocks().len() ==> #[trigger] old(
                self,
            ).block_decodes(i)) ==> r is Ok,
            r matches Err(e) ==> (e == LsmError::Io || e == LsmError::Corruption) && exists|i: int|
                old(self).block_index() < i < old(self).table_blocks().len() && !old(self).block_decodes(i),
            forall|i: int| #[trigger] final(self).block_decodes(i) == old(self).block_decodes(i),
            r is Ok ==> final(self).rest() == if old(self).rest().len() > 0 {
                old(self).rest().drop_first()
            } else {
                old(self).rest()
            },
    {
        proof {
            self.lemma_rest();
            self.lemma_rest_loose();
            self.blk_iter.lemma_remaining();
        }
        let n = self.table.num_of_blocks();
        if n == 0 {
            return Ok(());
        }
        if !self.blk_iter.is_valid() {
            return Ok(());
        }
        let ghost old_rest = self.rest();
        let ghost bs = self.table.blocks();
        let ghost b = self.blk_idx as int;
        let ghost j = self.blk_iter.pos();
        self.blk_iter.next();
        proof {
            assert(bs[b].subrange(j + 1, bs[b].len() as int) =~= bs[b].subrange(j, bs[b].len() as int).drop_first());
            assert(self.rest() =~= old_rest.drop_first());
            if forall|i: int| b < i < n ==> #[trigger] old(self).block_decodes(i) {
                assert forall|i: int| self.blk_idx < i < n implies #[trigger] self.table.block_decodes(i) by {
                    assert(old(self).block_decodes(i));
                }
            }
        }
        let r = self.skip_exhausted();
        proof {
            if r is Err {
                let i = choose|i: int| b < i < n && !self.table.block_decodes(i);
                assert(!old(self).block_decodes(i));
            }
        }
        r
    }

    /// The key of the current entry.
    pub fn key(&self) -> (r: &[u8])
        requires
            self.inv(),
            self.rest().len() > 0,
        ensures
            r@ == self.rest()[0].0,
    {
        proof {
            self.lemma_rest();
            self.blk_iter.lemma_remaining();
        }
        self.blk_iter.key()
    }

    /// The value of the current entry.
    pub fn value(&self) -> (r: &[u8])
        requires
            self.inv(),
            self.rest().len() > 0,
        ensures
            r@ == self.rest()[0].1,
    {
        proof {
            self.lemma_rest();
            self.blk_iter.lemma_remaining();
        }
        self.blk_iter.value()
    }

    /// Whether the iterator stands on an entry.
    pub fn is_valid(&self) -> (r: bool)
        requires
            self.inv(),
        ensures
            r == (self.rest().len() > 0),
    {
        proof {
            self.lemma_rest();
            self.blk_iter.lemma_remaining();
        }
        self.blk_iter.is_valid()
    }
}

/// Where a seek for `k` in a table lands. In a sound table with blocks the
/// position is the first entry whose key is at least `k` (every earlier
/// entry lies below `k`), and what remains starts at that entry; where `k`
/// lies above the last key nothing remains. In a table without blocks
/// nothing remains.
pub open spec fn seek_landing(
    sound: bool,
    bs: Seq<Seq<EntryView>>,
    last_key: Seq<u8>,
    k: Seq<u8>,
    b: int,
    j: int,
    rest: Seq<EntryView>,
) -> bool {
    &&& bs.len() == 0 ==> rest.len() == 0
    &&& sound && bs.len() > 0 ==> table_seek_result(bs, k, b, j)
    &&& sound && bs.len() > 0 ==> rest == bs[b].subrange(j, bs[b].len() as int) + flatten(
        bs.subrange(b + 1, bs.len() as int),
    )
    &&& sound ==> (rest.len() > 0 ==> !key_lt(rest[0].0, k))
    &&& sound && key_lt(last_key, k) ==> rest.len() == 0
}

/// The first entry of a run of blocks is the first entry of its first
/// block, and its last entry the last of its last block.
pub proof fn lemma_flatten_ends(bs: Seq<Seq<EntryView>>)
    requires
        bs.len() > 0,
        bs[0].len() > 0,
        bs.last().len() > 0,
    ensures
        flatten(bs).len() > 0,
        flatten(bs)[0] == bs[0][0],
        flatten(bs).last() == bs.last().last(),
{
    crate::table_builder::lemma_flatten_push(bs.drop_last(), bs.last());
    assert(bs.drop_last().push(bs.last()) =~= bs);
}

/// In a sound table with blocks, the recorded first and last keys are the
/// first and last keys the table yields.
pub proof fn lemma_first_last_keys(t: &SsTable)
    requires
        t.wf(),
        t.sound(),
        t.blocks().len() > 0,
    ensures
        flatten(t.blocks()).len() > 0,
        flatten(t.blocks())[0].0 == t.first_key_spec(),
        flatten(t.blocks()).last().0 == t.last_key_spec(),
{
    t.lemma_wf();
    assert(t.blocks()[0].len() > 0);
    assert(t.blocks()[t.blocks().len() - 1].len() > 0);
    lemma_flatten_ends(t.blocks());
}

/// In every sound table (every table a builder makes is one) the block
/// metas are ordered: each block's last key lies below the next block's
/// first key.
pub proof fn lemma_meta_order(t: &SsTable)
    requires
        t.wf(),
        t.sound(),
    ensures
        forall|i: int| 0 <= i < t.metas().len() - 1 ==> key_lt(#[trigger] t.metas()[i].2, t.metas()[i + 1].1),
{
    t.lemma_wf();
}

impl StorageIterator for SsTableIterator {
    open spec fn inv(&self) -> bool {
        self.inv()
    }

    open spec fn remaining(&self) -> Seq<EntryView> {
        self.rest()
    }

    open spec fn reliable(&self) -> bool {
        self.table_sound()
    }

    open spec fn fails_with(&self, e: LsmError) -> bool {
        &&& (e == LsmError::Io || e == LsmError::Corruption)
        &&& exists|i: int| 0 <= i < self.table_blocks().len() && !self.block_decodes(i)
    }

    fn key(&self) -> (r: &[u8]) {
        SsTableIterator::key(self)
    }

    fn value(&self) -> (r: &[u8]) {
        SsTableIterator::value(self)
    }

    fn is_valid(&self) -> (r: bool) {
        SsTableIterator::is_valid(self)
    }

    fn next(&mut self) -> (r: Result<(), LsmError>) {
        let r = SsTableIterator::next(self);
        proof {
            assert forall|e: LsmError| #[trigger] self.fails_with(e) == old(self).fails_with(e) by {
                let n = self.table_blocks().len();
                if exists|i: int| 0 <= i < n && !self.block_decodes(i) {
                    let i = choose|i: int| 0 <= i < n && !self.block_decodes(i);
                    assert(!old(self).block_decodes(i));
                }
                if exists|i: int| 0 <= i < n && !old(self).block_decodes(i) {
                    let i = choose|i: int| 0 <= i < n && !old(self).block_decodes(i);
                    assert(!self.block_decodes(i));
                }
            }
        }
        r
    }
}

} // verus!
