//! Streams sorted key/value pairs into blocks and finalizes a table.

use vstd::prelude::*;
use crate::block::{block_entries, decode_block_spec, lemma_block_encode_decode};
use crate::block_builder::{entries_size, BlockBuilder};
use crate::codec::{put_slice, put_u32, u32_bytes};
use crate::key::{key_lt, EntryView};
use crate::table::{
    block_at, block_end, block_ok, blocks_ok, encode_metas_spec, file_metas,
    footer_offset, lemma_metas_round_trip, meta_encodable, metas_view, table_blocks,
    table_file_ok, BlockMeta, FileObject, MetaView, SsTable,
};
use crate::table_iterator::flatten;
use crate::LsmError;

verus! {

pub proof fn lemma_flatten_push(bs: Seq<Seq<EntryView>>, c: Seq<EntryView>)
    ensures
        flatten(bs.push(c)) == flatten(bs) + c,
    decreases bs.len(),
{
    if bs.len() == 0 {
        assert(bs.push(c).drop_first() =~= Seq::<Seq<EntryView>>::empty());
        assert(flatten(bs.push(c).drop_first()) == Seq::<EntryView>::empty());
        assert(flatten(bs) == Seq::<EntryView>::empty());
        assert(flatten(bs.push(c)) =~= c);
    } else {
        lemma_flatten_push(bs.drop_first(), c);
        assert(bs.push(c).drop_first() =~= bs.drop_first().push(c));
        assert(flatten(bs.push(c)) =~= flatten(bs) + c);
    }
}

/// Blocks laid out in `d` read the same once more bytes follow them.
proof fn lemma_blocks_extend(d: Seq<u8>, x: Seq<u8>, ms: Seq<MetaView>)
    requires
        blocks_ok(d, ms, d.len() as int),
    ensures
        blocks_ok(d + x, ms, d.len() as int),
        table_blocks(d + x, ms, d.len() as int) == table_blocks(d, ms, d.len() as int),
{
    let e = d + x;
    let mo = d.len() as int;
    assert forall|i: int| 0 <= i < ms.len() implies block_at(e, ms, mo, i) == block_at(d, ms, mo, i) by {
        assert(block_ok(d, ms, mo, i));
        let lo = ms[i].0;
        let hi = block_end(ms, mo, i);
        assert(e.subrange(lo, hi) =~= d.subrange(lo, hi));
    }
    assert forall|i: int| 0 <= i < ms.len() implies #[trigger] block_ok(e, ms, mo, i) by {
        assert(block_ok(d, ms, mo, i));
        assert(block_at(e, ms, mo, i) == block_at(d, ms, mo, i));
    }
    assert(table_blocks(e, ms, mo) =~= table_blocks(d, ms, mo));
}

/// The blocks `bs`, named by the metas `ms`, lie in `d` and end where `d`
/// ends.
#[verifier::opaque]
pub open spec fn layout_ok(d: Seq<u8>, ms: Seq<MetaView>, bs: Seq<Seq<EntryView>>) -> bool {
    &&& blocks_ok(d, ms, d.len() as int)
    &&& table_blocks(d, ms, d.len() as int) == bs
}

/// Appending an encoded block and its meta keeps the layout sound.
#[verifier::rlimit(40)]
proof fn lemma_append_block(
    d0: Seq<u8>,
    ms0: Seq<MetaView>,
    bs0: Seq<Seq<EntryView>>,
    enc: Seq<u8>,
    cur: Seq<EntryView>,
)
    requires
        layout_ok(d0, ms0, bs0),
        bs0.len() == ms0.len(),
        decode_block_spec(enc) matches Some((bd, bo)) && block_entries(bd, bo) == cur,
        cur.len() > 0,
        crate::key::keys_ascending(cur),
        ms0.len() > 0 ==> key_lt(ms0.last().2, cur[0].0),
    ensures
        layout_ok(d0 + enc, ms0.push((d0.len() as int, cur[0].0, cur.last().0)), bs0.push(cur)),
{
    reveal(layout_ok);
    let d1 = d0 + enc;
    let ms1 = ms0.push((d0.len() as int, cur[0].0, cur.last().0));
    let n = ms0.len() as int;
    let mo0 = d0.len() as int;
    let mo1 = d1.len() as int;
    assert(d1.subrange(mo0, mo1) =~= enc);
    assert(block_end(ms1, mo1, n) == mo1);
    assert(block_at(d1, ms1, mo1, n) == Some(cur));
    assert forall|i: int| 0 <= i < n implies block_at(d1, ms1, mo1, i) == block_at(d0, ms0, mo0, i) by {
        assert(block_ok(d0, ms0, mo0, i));
        assert(ms1[i] == ms0[i]);
        assert(block_end(ms1, mo1, i) == block_end(ms0, mo0, i));
        let lo = ms0[i].0;
        let hi = block_end(ms0, mo0, i);
        assert(d1.subrange(lo, hi) =~= d0.subrange(lo, hi));
    }
    assert forall|i: int| 0 <= i < n + 1 implies #[trigger] block_ok(d1, ms1, mo1, i) by {
        if i < n {
            assert(block_ok(d0, ms0, mo0, i));
            assert(block_at(d1, ms1, mo1, i) == block_at(d0, ms0, mo0, i));
        }
    }
    assert forall|i: int| 0 <= i < ms1.len() - 1 implies key_lt(#[trigger] ms1[i].2, ms1[i + 1].1) by {
        if i < n - 1 {
            assert(ms1[i] == ms0[i] && ms1[i + 1] == ms0[i + 1]);
        }
    }
    assert forall|i: int| 0 <= i < n + 1 implies #[trigger] table_blocks(d1, ms1, mo1)[i] == bs0.push(cur)[i] by {
        if i < n {
            assert(block_at(d1, ms1, mo1, i) == block_at(d0, ms0, mo0, i));
            assert(table_blocks(d0, ms0, mo0)[i] == bs0[i]);
        }
    }
    assert(table_blocks(d1, ms1, mo1) =~= bs0.push(cur));
    assert(blocks_ok(d1, ms1, mo1));
}

/// Accumulates sorted records into blocks of a target size and lays them
/// out as a table.
pub struct SsTableBuilder {
    builder: BlockBuilder,
    data: Vec<u8>,
    pub(crate) meta: Vec<BlockMeta>,
    block_size: usize,
    blocks: Ghost<Seq<Seq<EntryView>>>,
}

impl SsTableBuilder {
    pub closed spec fn wf(&self) -> bool {
        let ms = metas_view(self.meta@);
        let bs = self.blocks@;
        let cur = self.builder.entries();
        let n = ms.len();
        &&& self.builder.wf()
        &&& self.builder.target_size() == self.block_size
        &&& bs.len() == n
        &&& n <= self.data@.len()
        &&& layout_ok(self.data@, ms, bs)
        &&& forall|i: int| 0 <= i < n ==> meta_encodable(#[trigger] ms[i])
        &&& n > 0 && cur.len() > 0 ==> key_lt(ms[n - 1].2, cur[0].0)
        &&& n > 0 ==> ms[n - 1].2 == bs[n - 1].last().0
        &&& self.pending_size() < 0x1_0000_0000
    }

    /// Every entry added so far, in order.
    pub closed spec fn entries(&self) -> Seq<EntryView> {
        flatten(self.blocks@) + self.builder.entries()
    }

    /// Bytes of the blocks finished so far.
    pub closed spec fn written_size(&self) -> nat {
        self.data@.len()
    }

    /// Bytes the blocks take once the current one is finished.
    pub closed spec fn pending_size(&self) -> nat {
        if self.builder.entries().len() == 0 {
            self.data@.len()
        } else {
            self.data@.len() + 2 + entries_size(self.builder.entries())
        }
    }

    /// Creates a builder whose blocks target `block_size` bytes.
    pub fn new(block_size: usize) -> (r: Self)
        requires
            block_size <= 65535,
        ensures
            r.wf(),
            r.entries() == Seq::<EntryView>::empty(),
            r.pending_size() == 0,
    {
        let r = SsTableBuilder {
            builder: BlockBuilder::new(block_size),
            data: Vec::new(),
            meta: Vec::new(),
            block_size,
            blocks: Ghost(Seq::empty()),
        };
        assert(metas_view(r.meta@) =~= Seq::<MetaView>::empty());
        reveal(layout_ok);
        assert(table_blocks(r.data@, metas_view(r.meta@), 0) =~= Seq::<Seq<EntryView>>::empty());
        assert(r.entries() =~= Seq::<EntryView>::empty());
        r
    }

    /// Bytes of the blocks finished so far.
    pub fn estimated_size(&self) -> (r: usize)
        ensures
            r == self.written_size(),
    {
        self.data.len()
    }

    /// Bytes the blocks take once the current one is finished.
    pub fn bytes_pending(&self) -> (r: usize)
        requires
            self.wf(),
        ensures
            r == self.pending_size(),
            r < 0x1_0000_0000,
    {
        proof {
            self.builder.lemma_wf();
        }
        if self.builder.is_empty() {
            self.data.len()
        } else {
            self.data.len() + self.builder.estimated_size()
        }
    }

    proof fn lemma_last_entry(&self)
        requires
            self.wf(),
            self.entries().len() > 0 || self.blocks@.len() > 0,
        ensures
            self.entries().len() > 0,
            self.builder.entries().len() > 0 ==> self.entries().last() == self.builder.entries().last(),
            self.builder.entries().len() == 0 ==> self.blocks@.len() > 0 && self.entries().last().0
                == metas_view(self.meta@)[self.blocks@.len() - 1].2,
    {
        let bs = self.blocks@;
        reveal(layout_ok);
        if self.builder.entries().len() == 0 {
            assert(self.entries() =~= flatten(bs));
            if bs.len() == 0 {
                assert(flatten(bs) =~= Seq::<EntryView>::empty());
            } else {
                lemma_flatten_push(bs.drop_last(), bs.last());
                assert(bs.drop_last().push(bs.last()) =~= bs);
                assert(block_ok(self.data@, metas_view(self.meta@), self.data@.len() as int, bs.len() - 1));
            }
        }
    }

    /// Adds a record, finishing the current block first where it is full.
    /// Keys arrive strictly ascending; offsets in the file are `u32`, so the
    /// blocks must stay below 4 GiB.
    pub fn add(&mut self, key: &[u8], value: &[u8])
        requires
            old(self).wf(),
            1 <= key@.len() <= 65535,
            value@.len() <= 65535,
            old(self).entries().len() > 0 ==> key_lt(old(self).entries().last().0, key@),
            old(self).pending_size() + 8 + key@.len() + value@.len() < 0x1_0000_0000,
        ensures
            final(self).wf(),
            final(self).entries() == old(self).entries().push((key@, value@)),
            final(self).pending_size() <= old(self).pending_size() + 8 + key@.len() + value@.len(),
    {
        proof {
            if self.entries().len() > 0 || self.blocks@.len() > 0 {
                self.lemma_last_entry();
            }
            self.builder.lemma_wf();
        }
        let ghost cur = self.builder.entries();
        if self.builder.add(key, value) {
            proof {
                assert(self.builder.entries() == cur.push((key@, value@)));
                assert(entries_size(cur.push((key@, value@))) == entries_size(cur) + 6 + key@.len() + value@.len()) by {
                    assert(cur.push((key@, value@)).drop_last() =~= cur);
                }
                assert(self.entries() =~= old(self).entries().push((key@, value@)));
            }
            return;
        }
        self.finish_block();
        proof {
            self.builder.lemma_wf();
            assert(cur.len() > 0);
            assert(old(self).entries().last() == cur.last());
            let ms = metas_view(self.meta@);
            assert(ms[ms.len() - 1].2 == cur.last().0);
            assert(key_lt(ms[ms.len() - 1].2, key@));
            assert(self.data@.len() == old(self).pending_size());
            assert(self.builder.entries() =~= Seq::<EntryView>::empty());
        }
        let accepted = self.builder.add(key, value);
        proof {
            assert(accepted);
            let one = Seq::<EntryView>::empty().push((key@, value@));
            assert(one.drop_last() =~= Seq::<EntryView>::empty());
            assert(entries_size(Seq::<EntryView>::empty()) == 0);
            assert(entries_size(one.drop_last()) == 0);
            assert(one.last() == (key@, value@));
            assert(entries_size(one) == 6 + key@.len() + value@.len());
            assert(self.builder.entries()[0].0 == key@);
            assert(self.builder.entries() =~= one);
            assert(self.pending_size() < 0x1_0000_0000);
            let ms = metas_view(self.meta@);
            assert(key_lt(ms[ms.len() - 1].2, self.builder.entries()[0].0));
            assert(self.builder.wf());
            assert(Seq::<EntryView>::empty().push((key@, value@)).drop_last() =~= Seq::<EntryView>::empty());
            assert(self.entries() =~= old(self).entries().push((key@, value@)));
        }
    }

    /// Closes the current block, if it holds any entry: appends its bytes
    /// and records its meta.
    fn finish_block(&mut self)
        requires
            old(self).wf(),
        ensures
            final(self).wf(),
            final(self).entries() == old(self).entries(),
            final(self).builder.entries().len() == 0,
            final(self).pending_size() == old(self).pending_size(),
            final(self).block_size == old(self).block_size,
            old(self).builder.entries().len() > 0 ==> final(self).blocks@.len() > 0 && metas_view(
                final(self).meta@,
            ).last().2 == old(self).builder.entries().last().0,
            old(self).builder.entries().len() == 0 ==> *final(self) == *old(self),
    {
        if self.builder.is_empty() {
            return;
        }
        self.seal_block();
    }

    #[verifier::rlimit(80)]
    fn seal_block(&mut self)
        requires
            old(self).wf(),
            old(self).builder.entries().len() > 0,
        ensures
            final(self).wf(),
            final(self).entries() == old(self).entries(),
            final(self).builder.entries().len() == 0,
            final(self).pending_size() == old(self).pending_size(),
            final(self).block_size == old(self).block_size,
            final(self).blocks@.len() > 0,
            metas_view(final(self).meta@).last().2 == old(self).builder.entries().last().0,
    {
        let ghost cur = self.builder.entries();
        let ghost d0 = self.data@;
        let ghost ms0 = metas_view(self.meta@);
        let ghost bs0 = self.blocks@;
        proof {
            self.builder.lemma_wf();
        }
        let mut old_builder = BlockBuilder::new(self.block_size);
        core::mem::swap(&mut self.builder, &mut old_builder);
        let first_key = vstd::slice::slice_to_vec(old_builder.first_key());
        let last_key = vstd::slice::slice_to_vec(old_builder.last_key());
        let block = old_builder.build();
        let encoded = block.encode();
        proof {
            lemma_block_encode_decode(block.data@, block.offsets@);
        }
        let offset = self.data.len();
        self.meta.push(BlockMeta { offset, first_key, last_key });
        put_slice(&mut self.data, encoded.as_slice());
        self.blocks = Ghost(bs0.push(cur));
        proof {
            let ms1 = metas_view(self.meta@);
            assert(ms1 =~= ms0.push((offset as int, cur[0].0, cur.last().0)));
            assert(self.data@ =~= d0 + encoded@);
            lemma_append_block(d0, ms0, bs0, encoded@, cur);
            lemma_flatten_push(bs0, cur);
            assert(self.builder.entries() =~= Seq::<EntryView>::empty());
            assert(self.entries() =~= old(self).entries());
            assert(self.builder.wf());
            assert(self.builder.target_size() == self.block_size);
            assert(self.blocks@.len() == ms1.len());
            assert(encoded@.len() == 2 + entries_size(cur));
            assert(ms1.len() <= self.data@.len());
            assert(layout_ok(self.data@, ms1, self.blocks@));
            assert(forall|i: int| 0 <= i < ms1.len() ==> meta_encodable(#[trigger] ms1[i]));
            assert(ms1[ms1.len() - 1].2 == self.blocks@[ms1.len() - 1].last().0);
            assert(self.pending_size() == old(self).pending_size());
        }
    }

    /// Finishes the last block and returns the bytes of the table file:
    /// blocks, meta section, meta offset.
    pub fn finish(self) -> (r: Vec<u8>)
        requires
            self.wf(),
        ensures
            table_file_ok(r@),
            ({
                let ms = file_metas(r@).unwrap();
                flatten(table_blocks(r@, ms, footer_offset(r@))) == self.entries()
            }),
    {
        let mut this = self;
        this.finish_block();
        let ghost ms = metas_view(this.meta@);
        let ghost bs = this.blocks@;
        let ghost d0 = this.data@;
        let block_meta_offset = this.data.len();
        let mut buf = this.data;
        proof {
            assert forall|i: int| 0 <= i < this.meta@.len() implies meta_encodable(
                #[trigger] this.meta@[i].view_meta(),
            ) by {
                assert(ms[i] == this.meta@[i].view_meta());
            }
        }
        BlockMeta::encode_block_meta(this.meta.as_slice(), &mut buf);
        let ghost d1 = buf@;
        put_u32(&mut buf, block_meta_offset as u32);
        proof {
            let d = buf@;
            let mo = block_meta_offset as int;
            let m = encode_metas_spec(ms);
            lemma_metas_round_trip(ms);
            crate::codec::lemma_u32_bytes(mo);
            let u = u32_bytes(mo);
            assert(d =~= d0 + (m + u));
            let l = d.len() as int;
            assert(d[l - 4] == u[0] && d[l - 3] == u[1] && d[l - 2] == u[2] && d[l - 1] == u[3]);
            assert(footer_offset(d) == mo);
            assert(d.subrange(mo, l - 4) =~= m);
            assert(file_metas(d) == Some(ms));
            reveal(layout_ok);
            lemma_blocks_extend(d0, m + u, ms);
            assert(this.builder.entries() =~= Seq::<EntryView>::empty());
            assert(this.entries() =~= flatten(bs));
        }
        buf
    }

    /// Finalizes the table and opens it.
    pub fn build(self, id: usize) -> (r: Result<SsTable, LsmError>)
        requires
            self.wf(),
        ensures
            r matches Ok(t) && t.wf() && t.sound() && t.id_spec() == id && flatten(t.blocks())
                == self.entries(),
    {
        let ghost entries = self.entries();
        let bytes = self.finish();
        let file = FileObject::new(bytes);
        match SsTable::open(id, file) {
            Ok(t) => {
                proof {
                    t.lemma_len();
                }
                Ok(t)
            },
            Err(e) => Err(e),
        }
    }
}

} // verus!
