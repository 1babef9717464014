//! The sorted string table: blocks, then the block-meta section, then the
//! offset of that section, all integers big-endian.

use vstd::prelude::*;
use std::sync::Arc;
use crate::block::{block_entries, decode_block_spec, Block};
use crate::codec::{be16, be32, get_u16, get_u32, copy_range, put_slice, put_u16, put_u32, u16_bytes, u32_bytes};
use crate::key::{compare_keys, key_lt, keys_ascending, lemma_key_lt_transitive, EntryView};
use crate::LsmError;

verus! {

/// A block meta as plain values: offset, first key, last key.
pub type MetaView = (int, Seq<u8>, Seq<u8>);

/// Index record of one block of a table.
#[derive(Clone, Debug, PartialEq, Eq)]
pub struct BlockMeta {
    /// Offset of the block in the file.
    pub offset: usize,
    /// The first key of the block.
    pub first_key: Vec<u8>,
    /// The last key of the block.
    pub last_key: Vec<u8>,
}

impl BlockMeta {
    pub open spec fn view_meta(&self) -> MetaView {
        (self.offset as int, self.first_key@, self.last_key@)
    }
}

pub open spec fn metas_view(ms: Seq<BlockMeta>) -> Seq<MetaView> {
    Seq::new(ms.len(), |i: int| ms[i].view_meta())
}

/// Whether a meta's fields fit their encoded widths.
pub open spec fn meta_encodable(m: MetaView) -> bool {
    0 <= m.0 < 0x1_0000_0000 && m.1.len() < 65536 && m.2.len() < 65536
}

/// `offset | first_key_len | first_key | last_key_len | last_key`.
pub open spec fn meta_bytes(m: MetaView) -> Seq<u8> {
    u32_bytes(m.0) + u16_bytes(m.1.len() as int) + m.1 + u16_bytes(m.2.len() as int) + m.2
}

pub open spec fn metas_bytes(ms: Seq<MetaView>) -> Seq<u8>
    decreases ms.len(),
{
    if ms.len() == 0 {
        Seq::empty()
    } else {
        metas_bytes(ms.drop_last()) + meta_bytes(ms.last())
    }
}

/// The block-meta section: the count, then each meta.
pub open spec fn encode_metas_spec(ms: Seq<MetaView>) -> Seq<u8> {
    u32_bytes(ms.len() as int) + metas_bytes(ms)
}

/// The meta at `p` and the position after it.
pub open spec fn parse_meta(d: Seq<u8>, p: int) -> Option<(MetaView, int)> {
    if p < 0 || p + 6 > d.len() {
        None
    } else {
        let fl = be16(d, p + 4);
        if p + 8 + fl > d.len() {
            None
        } else {
            let ll = be16(d, p + 6 + fl);
            if p + 8 + fl + ll > d.len() {
                None
            } else {
                Some(
                    (
                        (be32(d, p), d.subrange(p + 6, p + 6 + fl), d.subrange(
                            p + 8 + fl,
                            p + 8 + fl + ll,
                        )),
                        p + 8 + fl + ll,
                    ),
                )
            }
        }
    }
}

/// `count` metas from `p` on, after `acc`, ending exactly at the end of `d`.
pub open spec fn parse_metas(d: Seq<u8>, p: int, count: nat, acc: Seq<MetaView>) -> Option<
    Seq<MetaView>,
>
    decreases count,
{
    if count == 0 {
        if p == d.len() {
            Some(acc)
        } else {
            None
        }
    } else {
        match parse_meta(d, p) {
            None => None,
            Some((m, next)) => parse_metas(d, next, (count - 1) as nat, acc.push(m)),
        }
    }
}

/// The metas of a block-meta section, or `None` where the count disagrees
/// with the bytes.
pub open spec fn decode_metas_spec(d: Seq<u8>) -> Option<Seq<MetaView>> {
    if d.len() < 4 {
        None
    } else {
        parse_metas(d, 4, be32(d, 0) as nat, Seq::empty())
    }
}

impl BlockMeta {
    /// Appends the block-meta section for `block_meta` to `buf`.
    pub fn encode_block_meta(block_meta: &[BlockMeta], buf: &mut Vec<u8>)
        requires
            block_meta@.len() < 0x1_0000_0000,
            forall|i: int|
                0 <= i < block_meta@.len() ==> meta_encodable(#[trigger] block_meta@[i].view_meta()),
        ensures
            final(buf)@ == old(buf)@ + encode_metas_spec(metas_view(block_meta@)),
    {
        let n = block_meta.len();
        put_u32(buf, n as u32);
        let mut i: usize = 0;
        while i < n
            invariant
                n == block_meta@.len(),
                n < 0x1_0000_0000,
                i <= n,
                forall|j: int|
                    0 <= j < block_meta@.len() ==> meta_encodable(#[trigger] block_meta@[j].view_meta()),
                buf@ == old(buf)@ + u32_bytes(n as int) + metas_bytes(
                    metas_view(block_meta@.subrange(0, i as int)),
                ),
            decreases n - i,
        {
            let m = &block_meta[i];
            assert(meta_encodable(block_meta@[i as int].view_meta()));
            put_u32(buf, m.offset as u32);
            put_u16(buf, m.first_key.len() as u16);
            put_slice(buf, m.first_key.as_slice());
            put_u16(buf, m.last_key.len() as u16);
            put_slice(buf, m.last_key.as_slice());
            let ghost prev = metas_view(block_meta@.subrange(0, i as int));
            i = i + 1;
            let ghost cur = metas_view(block_meta@.subrange(0, i as int));
            assert(cur.drop_last() =~= prev);
            assert(cur.last() == block_meta@[i - 1].view_meta());
            assert(buf@ =~= old(buf)@ + u32_bytes(n as int) + metas_bytes(cur));
        }
        assert(block_meta@.subrange(0, n as int) =~= block_meta@);
        assert(buf@ =~= old(buf)@ + encode_metas_spec(metas_view(block_meta@)));
    }

    /// Decodes a block-meta section; fails with `Corruption` where the count
    /// disagrees with the bytes.
    pub fn decode_block_meta(buf: &[u8]) -> (r: Result<Vec<BlockMeta>, LsmError>)
        ensures
            match decode_metas_spec(buf@) {
                Some(ms) => r matches Ok(v) && metas_view(v@) == ms,
                None => r == Err::<Vec<BlockMeta>, LsmError>(LsmError::Corruption),
            },
    {
        let len = buf.len();
        if len < 4 {
            return Err(LsmError::Corruption);
        }
        let num = get_u32(buf, 0) as usize;
        let mut metas: Vec<BlockMeta> = Vec::new();
        let mut pos: usize = 4;
        let mut i: usize = 0;
        assert(metas_view(metas@) =~= Seq::<MetaView>::empty());
        while i < num
            invariant
                len == buf@.len(),
                num == be32(buf@, 0),
                i <= num,
                4 <= pos <= len,
                decode_metas_spec(buf@) == parse_metas(buf@, pos as int, (num - i) as nat, metas_view(metas@)),
            decreases num - i,
        {
            if len - pos < 6 {
                return Err(LsmError::Corruption);
            }
            let offset = get_u32(buf, pos) as usize;
            let fl = get_u16(buf, pos + 4) as usize;
            if len - pos < 8 + fl {
                return Err(LsmError::Corruption);
            }
            let ll = get_u16(buf, pos + 6 + fl) as usize;
            if len - pos - 8 - fl < ll {
                return Err(LsmError::Corruption);
            }
            let first_key = copy_range(buf, pos + 6, pos + 6 + fl);
            let last_key = copy_range(buf, pos + 8 + fl, pos + 8 + fl + ll);
            let ghost before = metas@;
            metas.push(BlockMeta { offset, first_key, last_key });
            assert(metas_view(metas@) =~= metas_view(before).push(metas@.last().view_meta()));
            pos = pos + 8 + fl + ll;
            i = i + 1;
        }
        if pos != len {
            return Err(LsmError::Corruption);
        }
        Ok(metas)
    }
}

/// The bytes of a file, held in memory; `size` is the length the file had.
pub struct FileObject {
    data: Vec<u8>,
    size: u64,
}

impl FileObject {
    /// The bytes that can be read.
    pub closed spec fn bytes(&self) -> Seq<u8> {
        self.data@
    }

    /// The recorded length of the file.
    pub closed spec fn size_spec(&self) -> int {
        self.size as int
    }

    /// A file object over the whole contents of a file.
    pub fn new(data: Vec<u8>) -> (r: Self)
        ensures
            r.bytes() == data@,
            r.size_spec() == data@.len(),
    {
        let size = data.len() as u64;
        FileObject { data, size }
    }

    /// Reads `len` bytes at `offset`; fails with `Io` where they lie past
    /// the readable bytes.
    pub fn read(&self, offset: u64, len: u64) -> (r: Result<Vec<u8>, LsmError>)
        ensures
            offset + len <= self.bytes().len() ==> (r matches Ok(v) && v@ == self.bytes().subrange(
                offset as int,
                offset + len,
            )),
            offset + len > self.bytes().len() ==> r == Err::<Vec<u8>, LsmError>(LsmError::Io),
    {
        let n = self.data.len();
        if offset > n as u64 || len > n as u64 - offset {
            return Err(LsmError::Io);
        }
        Ok(copy_range(self.data.as_slice(), offset as usize, (offset + len) as usize))
    }

    /// The length of the file.
    pub fn size(&self) -> (r: u64)
        ensures
            r == self.size_spec(),
    {
        self.size
    }
}

/// Where block `i` ends: at the next block, or at the meta section.
pub open spec fn block_end(ms: Seq<MetaView>, meta_offset: int, i: int) -> int {
    if i + 1 < ms.len() {
        ms[i + 1].0
    } else {
        meta_offset
    }
}

/// The bytes of block `i`.
pub open spec fn block_range(d: Seq<u8>, ms: Seq<MetaView>, meta_offset: int, i: int) -> Seq<u8> {
    d.subrange(ms[i].0, block_end(ms, meta_offset, i))
}

/// The entries of block `i`, where its bytes decode.
pub open spec fn block_at(d: Seq<u8>, ms: Seq<MetaView>, meta_offset: int, i: int) -> Option<
    Seq<EntryView>,
> {
    let lo = ms[i].0;
    let hi = block_end(ms, meta_offset, i);
    if 0 <= lo <= hi <= d.len() {
        match decode_block_spec(block_range(d, ms, meta_offset, i)) {
            Some((bd, bo)) => Some(block_entries(bd, bo)),
            None => None,
        }
    } else {
        None
    }
}

/// Block `i` decodes, is non-empty and sorted, and its meta names its first
/// and last keys.
pub open spec fn block_ok(d: Seq<u8>, ms: Seq<MetaView>, meta_offset: int, i: int) -> bool {
    match block_at(d, ms, meta_offset, i) {
        Some(b) => b.len() > 0 && keys_ascending(b) && b[0].0 == ms[i].1 && b.last().0 == ms[i].2,
        None => false,
    }
}

/// Every block is sound and the blocks are ordered: each one's last key
/// lies below the next one's first key.
pub open spec fn blocks_ok(d: Seq<u8>, ms: Seq<MetaView>, meta_offset: int) -> bool {
    &&& forall|i: int| 0 <= i < ms.len() ==> #[trigger] block_ok(d, ms, meta_offset, i)
    &&& forall|i: int| 0 <= i < ms.len() - 1 ==> key_lt(#[trigger] ms[i].2, ms[i + 1].1)
}

/// The entries of every block.
pub open spec fn table_blocks(d: Seq<u8>, ms: Seq<MetaView>, meta_offset: int) -> Seq<
    Seq<EntryView>,
> {
    Seq::new(ms.len(), |i: int| block_at(d, ms, meta_offset, i).unwrap())
}

/// The meta-section offset stored in the footer.
pub open spec fn footer_offset(d: Seq<u8>) -> int {
    be32(d, d.len() - 4)
}

/// The metas of a whole table file.
pub open spec fn file_metas(d: Seq<u8>) -> Option<Seq<MetaView>> {
    if d.len() < 4 || footer_offset(d) > d.len() - 4 {
        None
    } else {
        decode_metas_spec(d.subrange(footer_offset(d), d.len() - 4))
    }
}

/// Whether a whole table file is sound: footer, meta section and blocks.
pub open spec fn table_file_ok(d: Seq<u8>) -> bool {
    match file_metas(d) {
        Some(ms) => blocks_ok(d, ms, footer_offset(d)),
        None => false,
    }
}

/// An open sorted string table.
pub struct SsTable {
    /// The file the table lives in.
    pub(crate) file: FileObject,
    /// One meta per data block.
    pub(crate) block_meta: Vec<BlockMeta>,
    /// Where the meta section starts in `file`.
    pub(crate) block_meta_offset: usize,
    id: usize,
    first_key: Vec<u8>,
    last_key: Vec<u8>,
    /// The largest timestamp stored in the table.
    max_ts: u64,
}

impl SsTable {
    pub closed spec fn metas(&self) -> Seq<MetaView> {
        metas_view(self.block_meta@)
    }

    pub closed spec fn wf(&self) -> bool {
        let ms = self.metas();
        ms.len() > 0 ==> self.first_key@ == ms[0].1 && self.last_key@ == ms.last().2
    }

    /// Every block decodes, is non-empty and sorted, matches its meta, and
    /// the blocks are in order.
    pub closed spec fn sound(&self) -> bool {
        blocks_ok(self.file.bytes(), self.metas(), self.block_meta_offset as int)
    }

    /// The bytes of the table's file.
    pub closed spec fn file_bytes(&self) -> Seq<u8> {
        self.file.bytes()
    }

    /// Where the meta section starts.
    pub closed spec fn meta_offset_spec(&self) -> int {
        self.block_meta_offset as int
    }

    /// The bytes of block `i` lie in the file and decode.
    pub closed spec fn block_decodes(&self, i: int) -> bool {
        block_at(self.file.bytes(), self.metas(), self.block_meta_offset as int, i) is Some
    }

    /// Every block of a sound table decodes.
    pub proof fn lemma_sound_decodes(&self)
        requires
            self.sound(),
        ensures
            forall|i: int| 0 <= i < self.metas().len() ==> #[trigger] self.block_decodes(i),
    {
        assert forall|i: int| 0 <= i < self.metas().len() implies #[trigger] self.block_decodes(i) by {
            assert(block_ok(self.file.bytes(), self.metas(), self.block_meta_offset as int, i));
        }
    }

    /// There is one block per meta.
    pub proof fn lemma_len(&self)
        ensures
            self.blocks().len() == self.metas().len(),
            self.blocks() == table_blocks(self.file_bytes(), self.metas(), self.meta_offset_spec()),
            self.sound() == blocks_ok(self.file_bytes(), self.metas(), self.meta_offset_spec()),
    {
    }

    /// The entries of each block, in block order.
    pub closed spec fn blocks(&self) -> Seq<Seq<EntryView>> {
        table_blocks(self.file.bytes(), self.metas(), self.block_meta_offset as int)
    }

    pub closed spec fn first_key_spec(&self) -> Seq<u8> {
        self.first_key@
    }

    pub closed spec fn last_key_spec(&self) -> Seq<u8> {
        self.last_key@
    }

    pub closed spec fn id_spec(&self) -> usize {
        self.id
    }

    pub closed spec fn max_ts_spec(&self) -> u64 {
        self.max_ts
    }

    /// The recorded size of the table's file.
    pub closed spec fn size_spec(&self) -> int {
        self.file.size_spec()
    }

    /// Facts of a sound table: blocks line up with metas, are non-empty,
    /// sorted, named by their metas, and ordered.
    pub proof fn lemma_wf(&self)
        requires
            self.wf(),
            self.sound(),
        ensures
            self.blocks().len() == self.metas().len(),
            forall|i: int|
                0 <= i < self.blocks().len() ==> {
                    &&& (#[trigger] self.blocks()[i]).len() > 0
                    &&& keys_ascending(self.blocks()[i])
                    &&& self.blocks()[i][0].0 == self.metas()[i].1
                    &&& self.blocks()[i].last().0 == self.metas()[i].2
                },
            forall|i: int|
                0 <= i < self.metas().len() - 1 ==> key_lt(
                    #[trigger] self.metas()[i].2,
                    self.metas()[i + 1].1,
                ),
            self.blocks().len() > 0 ==> self.first_key_spec() == self.blocks()[0][0].0
                && self.last_key_spec() == self.blocks().last().last().0,
    {
        let ms = self.metas();
        let d = self.file.bytes();
        let mo = self.block_meta_offset as int;
        assert forall|i: int| 0 <= i < self.blocks().len() implies {
            &&& (#[trigger] self.blocks()[i]).len() > 0
            &&& keys_ascending(self.blocks()[i])
            &&& self.blocks()[i][0].0 == self.metas()[i].1
            &&& self.blocks()[i].last().0 == self.metas()[i].2
        } by {
            assert(block_ok(d, ms, mo, i));
        }
        if self.blocks().len() > 0 {
            assert(block_ok(d, ms, mo, 0));
            assert(block_ok(d, ms, mo, ms.len() - 1));
        }
    }

    /// Checks every block of a table: it lies in the file, decodes, is
    /// non-empty and sorted, matches its meta, and follows the previous one.
    fn check_layout(file: &FileObject, block_meta: &Vec<BlockMeta>, block_meta_offset: usize) -> (r: bool)
        ensures
            r == blocks_ok(file.bytes(), metas_view(block_meta@), block_meta_offset as int),
    {
        let n = block_meta.len();
        let ghost d = file.bytes();
        let ghost ms = metas_view(block_meta@);
        let ghost mo = block_meta_offset as int;
        let mut i: usize = 0;
        while i < n
            invariant
                n == block_meta@.len(),
                ms == metas_view(block_meta@),
                d == file.bytes(),
                mo == block_meta_offset,
                i <= n,
                forall|j: int| 0 <= j < i ==> #[trigger] block_ok(d, ms, mo, j),
                forall|j: int| 0 <= j < i - 1 ==> key_lt(#[trigger] ms[j].2, ms[j + 1].1),
            decreases n - i,
        {
            let lo = block_meta[i].offset;
            let hi = if i + 1 < n {
                block_meta[i + 1].offset
            } else {
                block_meta_offset
            };
            assert(ms[i as int].0 == lo);
            assert(block_end(ms, mo, i as int) == hi);
            if lo > hi {
                assert(!block_ok(d, ms, mo, i as int));
                return false;
            }
            let raw = match file.read(lo as u64, (hi - lo) as u64) {
                Ok(raw) => raw,
                Err(_) => {
                    assert(!block_ok(d, ms, mo, i as int));
                    return false;
                },
            };
            let block = match Block::decode(raw.as_slice()) {
                Ok(b) => b,
                Err(_) => {
                    assert(!block_ok(d, ms, mo, i as int));
                    return false;
                },
            };
            assert(block_at(d, ms, mo, i as int) == Some(block.entries()));
            let nb = block.offsets.len();
            if nb == 0 || !block.keys_ascending() {
                assert(!block_ok(d, ms, mo, i as int));
                return false;
            }
            let first = block.key_at(0);
            let last = block.key_at(nb - 1);
            let same_first = match compare_keys(first.as_slice(), block_meta[i].first_key.as_slice()) {
                core::cmp::Ordering::Equal => true,
                _ => false,
            };
            let same_last = match compare_keys(last.as_slice(), block_meta[i].last_key.as_slice()) {
                core::cmp::Ordering::Equal => true,
                _ => false,
            };
            if !same_first || !same_last {
                assert(!block_ok(d, ms, mo, i as int));
                return false;
            }
            if i > 0 {
                match compare_keys(block_meta[i - 1].last_key.as_slice(), block_meta[i].first_key.as_slice()) {
                    core::cmp::Ordering::Less => {},
                    _ => {
                        assert(!key_lt(ms[i - 1].2, ms[i - 1 + 1].1));
                        return false;
                    },
                }
            }
            assert(block_ok(d, ms, mo, i as int));
            i = i + 1;
        }
        true
    }

    /// Whether the table is sound: reads and checks every block.
    pub fn check_blocks(&self) -> (r: bool)
        ensures
            r == self.sound(),
    {
        Self::check_layout(&self.file, &self.block_meta, self.block_meta_offset)
    }

    /// Opens a table over the contents of its file: reads the footer and
    /// the meta section and takes the key range from the metas. Fails with
    /// `Io` where a read falls outside the file, and with `Corruption` where
    /// the footer or the meta section is inconsistent. Blocks are read, and
    /// checked, only when they are needed.
    pub fn open(id: usize, file: FileObject) -> (r: Result<Self, LsmError>)
        ensures
            r matches Ok(t) ==> t.wf() && t.id_spec() == id && t.file_bytes() == file.bytes()
                && t.size_spec() == file.size_spec(),
            r matches Ok(t) ==> (t.metas().len() == 0 ==> t.first_key_spec().len() == 0
                && t.last_key_spec().len() == 0),
            r matches Ok(t) ==> (t.metas().len() > 0 ==> t.first_key_spec() == t.metas()[0].1
                && t.last_key_spec() == t.metas().last().2),
            file.size_spec() == file.bytes().len() ==> (r is Ok <==> file_metas(file.bytes()) is Some),
            file.size_spec() == file.bytes().len() ==> (r is Err ==> r == Err::<SsTable, LsmError>(
                LsmError::Corruption,
            )),
            file.size_spec() == file.bytes().len() ==> (r matches Ok(t) ==> file_metas(file.bytes())
                == Some(t.metas()) && t.meta_offset_spec() == footer_offset(file.bytes())),
            file.size_spec() == file.bytes().len() ==> (r matches Ok(t) ==> (t.sound()
                <==> table_file_ok(file.bytes()))),
    {
        let file_len = file.size();
        if file_len < 4 {
            return Err(LsmError::Corruption);
        }
        let raw_meta_offset = match file.read(file_len - 4, 4) {
            Ok(v) => v,
            Err(e) => {
                return Err(e);
            },
        };
        let block_meta_offset = get_u32(raw_meta_offset.as_slice(), 0) as u64;
        proof {
            let d = file.bytes();
            if file.size_spec() == d.len() {
                assert(raw_meta_offset@ =~= d.subrange(d.len() - 4, d.len() as int));
                assert(block_meta_offset == footer_offset(d));
            }
        }
        if block_meta_offset > file_len - 4 {
            return Err(LsmError::Corruption);
        }
        let raw_meta = match file.read(block_meta_offset, file_len - 4 - block_meta_offset) {
            Ok(v) => v,
            Err(e) => {
                return Err(e);
            },
        };
        let block_meta = match BlockMeta::decode_block_meta(raw_meta.as_slice()) {
            Ok(v) => v,
            Err(e) => {
                return Err(e);
            },
        };
        let block_meta_offset = block_meta_offset as usize;
        let n = block_meta.len();
        let mut first_key: Vec<u8> = Vec::new();
        let mut last_key: Vec<u8> = Vec::new();
        if n > 0 {
            first_key = block_meta[0].first_key.clone();
            last_key = block_meta[n - 1].last_key.clone();
        }
        Ok(SsTable {
            file,
            block_meta,
            block_meta_offset,
            id,
            first_key,
            last_key,
            max_ts: 0,
        })
    }
}

impl SsTable {
    /// Last keys of a sound table rise strictly from block to block.
    pub proof fn lemma_last_keys_ascending(&self)
        requires
            self.wf(),
            self.sound(),
        ensures
            last_keys_ascending(self.metas()),
            forall|i: int, j: int|
                0 <= i < j < self.metas().len() ==> key_lt(
                    #[trigger] self.metas()[i].2,
                    #[trigger] self.metas()[j].2,
                ),
    {
        self.lemma_wf();
        let ms = self.metas();
        assert forall|i: int, j: int| 0 <= i < j < ms.len() implies key_lt(
            #[trigger] ms[i].2,
            #[trigger] ms[j].2,
        ) by {
            self.lemma_last_keys_step(i, j);
        }
    }

    proof fn lemma_last_keys_step(&self, i: int, j: int)
        requires
            self.wf(),
            self.sound(),
            0 <= i < j < self.metas().len(),
        ensures
            key_lt(self.metas()[i].2, self.metas()[j].2),
        decreases j - i,
    {
        self.lemma_wf();
        let ms = self.metas();
        let b = self.blocks()[i + 1];
        assert(key_lt(ms[i].2, ms[i + 1].1));
        if b.len() > 1 {
            assert(key_lt(b[0].0, b[b.len() - 1].0));
            lemma_key_lt_transitive(ms[i].2, ms[i + 1].1, ms[i + 1].2);
        }
        if j > i + 1 {
            self.lemma_last_keys_step(i + 1, j);
            lemma_key_lt_transitive(ms[i].2, ms[i + 1].2, ms[j].2);
        }
    }

    /// Every entry of a block lies at or below the block's last key.
    pub proof fn lemma_entry_le_last(&self, i: int, q: int)
        requires
            self.wf(),
            self.sound(),
            0 <= i < self.blocks().len(),
            0 <= q < self.blocks()[i].len(),
        ensures
            self.blocks()[i][q].0 == self.metas()[i].2 || key_lt(self.blocks()[i][q].0, self.metas()[i].2),
    {
        self.lemma_wf();
        let b = self.blocks()[i];
        if q < b.len() - 1 {
            assert(key_lt(b[q].0, b[b.len() - 1].0));
        }
    }

    /// A table with no blocks, known by its size and key range alone.
    pub fn create_meta_only(id: usize, file_size: u64, first_key: Vec<u8>, last_key: Vec<u8>) -> (r: Self)
        ensures
            r.wf(),
            r.sound(),
            r.metas().len() == 0,
            r.blocks().len() == 0,
            r.id_spec() == id,
            r.first_key_spec() == first_key@,
            r.last_key_spec() == last_key@,
            r.size_spec() == file_size,
            r.max_ts_spec() == 0,
    {
        let r = SsTable {
            file: FileObject { data: Vec::new(), size: file_size },
            block_meta: Vec::new(),
            block_meta_offset: 0,
            id,
            first_key,
            last_key,
            max_ts: 0,
        };
        assert(r.metas() =~= Seq::<MetaView>::empty());
        r
    }

    /// Reads and decodes block `block_idx`. Fails where its bytes lie
    /// outside the file (`Io`) or do not decode (`Corruption`).
    pub fn read_block(&self, block_idx: usize) -> (r: Result<Arc<Block>, LsmError>)
        requires
            block_idx < self.metas().len(),
        ensures
            r matches Err(e) ==> e == LsmError::Io || e == LsmError::Corruption,
            self.block_decodes(block_idx as int) ==> (r matches Ok(b) && b.wf() && b.entries() == self.blocks()[block_idx as int]
                && decode_block_spec(
                block_range(self.file_bytes(), self.metas(), self.meta_offset_spec(), block_idx as int),
            ) == Some((b.data@, b.offsets@))),
            !self.block_decodes(block_idx as int) ==> r is Err,
    {
        let ghost d = self.file.bytes();
        let ghost ms = self.metas();
        let ghost mo = self.block_meta_offset as int;
        let n = self.block_meta.len();
        assert(self.metas().len() == n);
        assert(block_idx < n);
        let offset = self.block_meta[block_idx].offset;
        let end_offset = if block_idx + 1 < n {
            self.block_meta[block_idx + 1].offset
        } else {
            self.block_meta_offset
        };
        assert(ms[block_idx as int].0 == offset);
        assert(block_end(ms, mo, block_idx as int) == end_offset);
        if offset > end_offset {
            return Err(LsmError::Corruption);
        }
        let raw = match self.file.read(offset as u64, (end_offset - offset) as u64) {
            Ok(v) => v,
            Err(e) => {
                return Err(e);
            },
        };
        match Block::decode(raw.as_slice()) {
            Ok(b) => Ok(Arc::new(b)),
            Err(e) => Err(e),
        }
    }

    /// Reads block `block_idx`. No block cache is attached to a table here,
    /// so the block is read from the file.
    pub fn read_block_cached(&self, block_idx: usize) -> (r: Result<Arc<Block>, LsmError>)
        requires
            block_idx < self.metas().len(),
        ensures
            r matches Err(e) ==> e == LsmError::Io || e == LsmError::Corruption,
            self.block_decodes(block_idx as int) ==> (r matches Ok(b) && b.wf() && b.entries() == self.blocks()[block_idx as int]
                && decode_block_spec(
                block_range(self.file_bytes(), self.metas(), self.meta_offset_spec(), block_idx as int),
            ) == Some((b.data@, b.offsets@))),
            !self.block_decodes(block_idx as int) ==> r is Err,
    {
        self.read_block(block_idx)
    }

    /// The first block whose last key is at least `key`, or the block count
    /// where there is none (binary search over the metas).
    pub fn first_block_reaching(&self, key: &[u8]) -> (r: usize)
        requires
            self.wf(),
        ensures
            r <= self.metas().len(),
            last_keys_ascending(self.metas()) ==> reaching_result(self.metas(), key@, r as int),
    {
        let ghost ms = self.metas();
        let n = self.block_meta.len();
        let mut lo: usize = 0;
        let mut hi: usize = n;
        while lo < hi
            invariant
                n == ms.len(),
                ms == self.metas(),
                0 <= lo <= hi <= n,
                last_keys_ascending(ms) ==> forall|i: int, j: int|
                    0 <= i < j < ms.len() ==> key_lt(#[trigger] ms[i].2, #[trigger] ms[j].2),
                last_keys_ascending(ms) ==> forall|i: int| 0 <= i < lo ==> key_lt(#[trigger] ms[i].2, key@),
                last_keys_ascending(ms) ==> forall|i: int| hi <= i < n ==> !key_lt(#[trigger] ms[i].2, key@),
            decreases hi - lo,
        {
            let mid = lo + (hi - lo) / 2;
            assert(ms[mid as int].2 == self.block_meta@[mid as int].last_key@);
            match compare_keys(self.block_meta[mid].last_key.as_slice(), key) {
                core::cmp::Ordering::Less => {
                    proof {
                        if last_keys_ascending(ms) {
                            assert forall|i: int| 0 <= i < mid + 1 implies key_lt(#[trigger] ms[i].2, key@) by {
                                if i < mid {
                                    lemma_key_lt_transitive(ms[i].2, ms[mid as int].2, key@);
                                }
                            }
                        }
                    }
                    lo = mid + 1;
                },
                _ => {
                    proof {
                        if last_keys_ascending(ms) {
                            assert forall|i: int| mid <= i < n implies !key_lt(#[trigger] ms[i].2, key@) by {
                                if i > mid && key_lt(ms[i].2, key@) {
                                    lemma_key_lt_transitive(ms[mid as int].2, ms[i].2, key@);
                                }
                            }
                        }
                    }
                    hi = mid;
                },
            }
        }
        lo
    }

    /// The block that may hold `key`: 0 where `key` lies outside the table's
    /// key range, else the first block whose last key is at least `key`.
    pub fn find_block_idx(&self, key: &[u8]) -> (r: usize)
        requires
            self.wf(),
        ensures
            key_lt(key@, self.first_key_spec()) || key_lt(self.last_key_spec(), key@) ==> r == 0,
            last_keys_ascending(self.metas()) && !(key_lt(key@, self.first_key_spec()) || key_lt(
                self.last_key_spec(),
                key@,
            )) ==> reaching_result(self.metas(), key@, r as int),
            last_keys_ascending(self.metas()) && self.metas().len() > 0 && !(key_lt(
                key@,
                self.first_key_spec(),
            ) || key_lt(self.last_key_spec(), key@)) ==> r < self.metas().len(),
    {
        let below = match compare_keys(key, self.first_key.as_slice()) {
            core::cmp::Ordering::Less => true,
            _ => false,
        };
        let above = match compare_keys(self.last_key.as_slice(), key) {
            core::cmp::Ordering::Less => true,
            _ => false,
        };
        if below || above {
            return 0;
        }
        let r = self.first_block_reaching(key);
        proof {
            let ms = self.metas();
            if last_keys_ascending(ms) && ms.len() > 0 && r == ms.len() {
                assert(key_lt(ms[ms.len() - 1].2, key@));
            }
        }
        r
    }

    /// Number of data blocks.
    pub fn num_of_blocks(&self) -> (r: usize)
        requires
            self.wf(),
        ensures
            r == self.blocks().len(),
    {
        self.block_meta.len()
    }

    /// The smallest key of the table.
    pub fn first_key(&self) -> (r: &[u8])
        ensures
            r@ == self.first_key_spec(),
    {
        self.first_key.as_slice()
    }

    /// The largest key of the table.
    pub fn last_key(&self) -> (r: &[u8])
        ensures
            r@ == self.last_key_spec(),
    {
        self.last_key.as_slice()
    }

    /// The size of the table's file in bytes.
    pub fn table_size(&self) -> (r: u64)
        ensures
            r == self.size_spec(),
    {
        self.file.size()
    }

    /// The table's identifier.
    pub fn sst_id(&self) -> (r: usize)
        ensures
            r == self.id_spec(),
    {
        self.id
    }

    /// The largest timestamp stored in the table.
    pub fn max_ts(&self) -> (r: u64)
        ensures
            r == self.max_ts_spec(),
    {
        self.max_ts
    }
}

/// The metas' last keys rise strictly from block to block.
pub open spec fn last_keys_ascending(ms: Seq<MetaView>) -> bool {
    forall|i: int, j: int| 0 <= i < j < ms.len() ==> key_lt(#[trigger] ms[i].2, #[trigger] ms[j].2)
}

/// `r` is the first index whose last key is at least `k`, or the count.
pub open spec fn reaching_result(ms: Seq<MetaView>, k: Seq<u8>, r: int) -> bool {
    &&& 0 <= r <= ms.len()
    &&& forall|i: int| 0 <= i < r ==> key_lt(#[trigger] ms[i].2, k)
    &&& r < ms.len() ==> !key_lt(ms[r].2, k)
}

/// A meta written between any bytes reads back as written.
proof fn lemma_meta_parse(pre: Seq<u8>, m: MetaView, post: Seq<u8>)
    requires
        meta_encodable(m),
    ensures
        parse_meta(pre + meta_bytes(m) + post, pre.len() as int) == Some(
            (m, pre.len() + meta_bytes(m).len() as int),
        ),
{
    let d = pre + meta_bytes(m) + post;
    let p = pre.len() as int;
    let fl = m.1.len() as int;
    let ll = m.2.len() as int;
    crate::codec::lemma_u32_bytes(m.0);
    crate::codec::lemma_u16_bytes(fl);
    crate::codec::lemma_u16_bytes(ll);
    let u = u32_bytes(m.0);
    assert(d[p] == u[0] && d[p + 1] == u[1] && d[p + 2] == u[2] && d[p + 3] == u[3]);
    assert(be32(d, p) == be32(u, 0));
    assert(d[p + 4] == u16_bytes(fl)[0] && d[p + 5] == u16_bytes(fl)[1]);
    assert(be16(d, p + 4) == fl);
    assert(d[p + 6 + fl] == u16_bytes(ll)[0] && d[p + 7 + fl] == u16_bytes(ll)[1]);
    assert(be16(d, p + 6 + fl) == ll);
    assert(d.subrange(p + 6, p + 6 + fl) =~= m.1);
    assert(d.subrange(p + 8 + fl, p + 8 + fl + ll) =~= m.2);
}

proof fn lemma_metas_bytes_prefix(ms: Seq<MetaView>, k: int)
    requires
        0 <= k <= ms.len(),
    ensures
        metas_bytes(ms) == metas_bytes(ms.subrange(0, k)) + metas_bytes_from(ms, k),
    decreases ms.len(),
{
    if k == ms.len() {
        assert(ms.subrange(0, k) =~= ms);
        assert(metas_bytes(ms) + Seq::<u8>::empty() =~= metas_bytes(ms));
    } else {
        lemma_metas_bytes_prefix(ms.drop_last(), k);
        assert(ms.drop_last().subrange(0, k) =~= ms.subrange(0, k));
        lemma_metas_bytes_from(ms, k);
    }
}

/// The encoding of `ms[k..]`.
pub open spec fn metas_bytes_from(ms: Seq<MetaView>, k: int) -> Seq<u8>
    decreases ms.len() - k,
{
    if k >= ms.len() || k < 0 {
        Seq::empty()
    } else {
        meta_bytes(ms[k]) + metas_bytes_from(ms, k + 1)
    }
}

proof fn lemma_metas_bytes_from(ms: Seq<MetaView>, k: int)
    requires
        0 <= k < ms.len(),
    ensures
        metas_bytes_from(ms, k) == metas_bytes_from(ms.drop_last(), k) + meta_bytes(ms.last()),
    decreases ms.len() - k,
{
    if k == ms.len() - 1 {
        assert(metas_bytes_from(ms.drop_last(), k) =~= Seq::<u8>::empty());
        assert(metas_bytes_from(ms, k + 1) =~= Seq::<u8>::empty());
        assert(metas_bytes_from(ms, k) =~= meta_bytes(ms.last()));
    } else {
        lemma_metas_bytes_from(ms, k + 1);
        assert(ms.drop_last()[k] == ms[k]);
        assert(metas_bytes_from(ms, k) =~= metas_bytes_from(ms.drop_last(), k) + meta_bytes(ms.last()));
    }
}

#[verifier::spinoff_prover]
#[verifier::rlimit(80)]
proof fn lemma_parse_metas_from(ms: Seq<MetaView>, k: int)
    requires
        0 <= k <= ms.len(),
        ms.len() < 0x1_0000_0000,
        forall|i: int| 0 <= i < ms.len() ==> meta_encodable(#[trigger] ms[i]),
    ensures
        ({
            let e = encode_metas_spec(ms);
            let p = 4 + metas_bytes(ms.subrange(0, k)).len() as int;
            parse_metas(e, p, (ms.len() - k) as nat, ms.subrange(0, k)) == Some(ms)
        }),
    decreases ms.len() - k,
{
    let e = encode_metas_spec(ms);
    crate::codec::lemma_u32_bytes(ms.len() as int);
    lemma_metas_bytes_prefix(ms, k);
    if k == ms.len() {
        assert(ms.subrange(0, k) =~= ms);
    } else {
        lemma_parse_metas_from(ms, k + 1);
        let pre = u32_bytes(ms.len() as int) + metas_bytes(ms.subrange(0, k));
        let post = metas_bytes_from(ms, k + 1);
        assert(e =~= pre + meta_bytes(ms[k]) + post);
        lemma_meta_parse(pre, ms[k], post);
        let s1 = ms.subrange(0, k + 1);
        assert(s1.drop_last() =~= ms.subrange(0, k));
        assert(ms.subrange(0, k).push(ms[k]) =~= s1);
        assert(metas_bytes(s1) == metas_bytes(ms.subrange(0, k)) + meta_bytes(ms[k]));
        let p = 4 + metas_bytes(ms.subrange(0, k)).len() as int;
        let next = 4 + metas_bytes(s1).len() as int;
        assert(pre.len() == p);
        assert(parse_meta(e, p) == Some((ms[k], next)));
    }
}

/// Decoding an encoded meta section gives back its metas.
pub proof fn lemma_metas_round_trip(ms: Seq<MetaView>)
    requires
        ms.len() < 0x1_0000_0000,
        forall|i: int| 0 <= i < ms.len() ==> meta_encodable(#[trigger] ms[i]),
    ensures
        decode_metas_spec(encode_metas_spec(ms)) == Some(ms),
{
    lemma_parse_metas_from(ms, 0);
    crate::codec::lemma_u32_bytes(ms.len() as int);
    let e = encode_metas_spec(ms);
    let u = u32_bytes(ms.len() as int);
    assert(e[0] == u[0] && e[1] == u[1] && e[2] == u[2] && e[3] == u[3]);
    assert(be32(e, 0) == be32(u, 0));
    assert(ms.subrange(0, 0) =~= Seq::<MetaView>::empty());
}

} // verus!
