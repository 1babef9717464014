//! The block: a packed run of key/value records followed by a table of
//! record offsets and the record count, all integers big-endian.

use vstd::prelude::*;
use crate::codec::{be16, copy_range, get_u16, put_u16, record_fits, record_key, record_value, u16_bytes};
use crate::key::{compare_keys, key_lt, keys_ascending, lemma_key_lt_transitive, EntryView};
use crate::LsmError;

verus! {

/// A payload and its offset table describe a block: the count fits a `u16`,
/// and each offset starts a whole record with a non-empty key.
pub open spec fn block_parts_wf(data: Seq<u8>, offsets: Seq<u16>) -> bool {
    &&& offsets.len() < 65536
    &&& forall|i: int|
        0 <= i < offsets.len() ==> {
            &&& record_fits(data, #[trigger] offsets[i] as int)
            &&& be16(data, offsets[i] as int) > 0
        }
}

/// The entries of a block, in offset order.
pub open spec fn block_entries(data: Seq<u8>, offsets: Seq<u16>) -> Seq<EntryView> {
    Seq::new(
        offsets.len(),
        |i: int| (record_key(data, offsets[i] as int), record_value(data, offsets[i] as int)),
    )
}

/// The offset table as big-endian bytes.
pub open spec fn offsets_bytes(offsets: Seq<u16>) -> Seq<u8> {
    Seq::new(
        2 * offsets.len(),
        |j: int|
            if j % 2 == 0 {
                (offsets[j / 2] / 256) as u8
            } else {
                (offsets[j / 2] % 256) as u8
            },
    )
}

/// `payload || offsets[] || num_entries`.
pub open spec fn encode_block_spec(data: Seq<u8>, offsets: Seq<u16>) -> Seq<u8> {
    data + offsets_bytes(offsets) + u16_bytes(offsets.len() as int)
}

/// The payload and offset table read back from an encoded block, or `None`
/// where the lengths are inconsistent.
pub open spec fn decode_block_spec(d: Seq<u8>) -> Option<(Seq<u8>, Seq<u16>)> {
    if d.len() < 2 {
        None
    } else {
        let n = be16(d, d.len() - 2);
        if 2 * n + 2 > d.len() {
            None
        } else {
            let end = d.len() - 2 - 2 * n;
            let data = d.subrange(0, end);
            let offsets = Seq::new(n as nat, |i: int| be16(d, end + 2 * i) as u16);
            if block_parts_wf(data, offsets) {
                Some((data, offsets))
            } else {
                None
            }
        }
    }
}

/// A block is the smallest unit of reading and caching: sorted key/value
/// records and the offset of each.
pub struct Block {
    pub data: Vec<u8>,
    pub offsets: Vec<u16>,
}

impl Block {
    pub open spec fn wf(&self) -> bool {
        block_parts_wf(self.data@, self.offsets@)
    }

    /// The entries of this block, in order.
    pub open spec fn entries(&self) -> Seq<EntryView> {
        block_entries(self.data@, self.offsets@)
    }

    /// Encodes the block as payload, offsets and count.
    pub fn encode(&self) -> (r: Vec<u8>)
        requires
            self.offsets@.len() < 65536,
        ensures
            r@ == encode_block_spec(self.data@, self.offsets@),
    {
        let mut buffer = self.data.clone();
        let n = self.offsets.len();
        let mut i: usize = 0;
        while i < n
            invariant
                n == self.offsets@.len(),
                i <= n,
                buffer@ == self.data@ + offsets_bytes(self.offsets@.subrange(0, i as int)),
            decreases n - i,
        {
            let ghost prev = buffer@;
            put_u16(&mut buffer, self.offsets[i]);
            i = i + 1;
            assert(buffer@ =~= self.data@ + offsets_bytes(self.offsets@.subrange(0, i as int)));
        }
        assert(self.offsets@.subrange(0, n as int) =~= self.offsets@);
        put_u16(&mut buffer, n as u16);
        buffer
    }

    /// Decodes a block; fails with `Corruption` where the count, the offset
    /// table or a record does not fit the bytes.
    pub fn decode(data: &[u8]) -> (r: Result<Block, LsmError>)
        ensures
            match decode_block_spec(data@) {
                Some((d, o)) => r matches Ok(b) && b.data@ == d && b.offsets@ == o,
                None => r == Err::<Block, LsmError>(LsmError::Corruption),
            },
    {
        let len = data.len();
        if len < 2 {
            return Err(LsmError::Corruption);
        }
        let n = get_u16(data, len - 2) as usize;
        if 2 * n + 2 > len {
            return Err(LsmError::Corruption);
        }
        let end = len - 2 - 2 * n;
        let ghost offs = Seq::new(n as nat, |i: int| be16(data@, end + 2 * i) as u16);
        let mut offsets: Vec<u16> = Vec::new();
        let mut i: usize = 0;
        while i < n
            invariant
                len == data@.len(),
                end + 2 * n + 2 == len,
                i <= n,
                offs == Seq::new(n as nat, |i: int| be16(data@, end + 2 * i) as u16),
                offsets@ == offs.subrange(0, i as int),
            decreases n - i,
        {
            offsets.push(get_u16(data, end + 2 * i));
            i = i + 1;
            assert(offsets@ =~= offs.subrange(0, i as int));
        }
        assert(offsets@ =~= offs);
        let payload = copy_range(data, 0, end);
        let mut i: usize = 0;
        while i < n
            invariant
                n == offsets@.len(),
                n < 65536,
                n == be16(data@, len - 2),
                end == len - 2 - 2 * n,
                len == data@.len(),
                offsets@ == offs,
                offs == Seq::new(n as nat, |i: int| be16(data@, end + 2 * i) as u16),
                end == payload@.len(),
                payload@ == data@.subrange(0, end as int),
                i <= n,
                forall|j: int|
                    0 <= j < i ==> {
                        &&& record_fits(payload@, #[trigger] offsets@[j] as int)
                        &&& be16(payload@, offsets@[j] as int) > 0
                    },
            decreases n - i,
        {
            let o = offsets[i] as usize;
            if o + 4 > end {
                assert(!record_fits(payload@, offsets@[i as int] as int));
                return Err(LsmError::Corruption);
            }
            let klen = get_u16(payload.as_slice(), o) as usize;
            assert(be16(payload@, offsets@[i as int] as int) == klen);
            if klen == 0 || o + 4 + klen > end {
                assert(!(record_fits(payload@, offs[i as int] as int) && be16(payload@, offs[i as int] as int) > 0));
                return Err(LsmError::Corruption);
            }
            let vlen = get_u16(payload.as_slice(), o + 2 + klen) as usize;
            if o + 4 + klen + vlen > end {
                assert(!record_fits(payload@, offsets@[i as int] as int));
                return Err(LsmError::Corruption);
            }
            assert(record_fits(payload@, offsets@[i as int] as int));
            assert(be16(payload@, offsets@[i as int] as int) > 0);
            i = i + 1;
        }
        Ok(Block { data: payload, offsets })
    }
}

impl Block {
    /// Whether the keys of this block are strictly ascending.
    pub fn keys_ascending(&self) -> (r: bool)
        requires
            self.wf(),
        ensures
            r == keys_ascending(self.entries()),
    {
        let n = self.offsets.len();
        if n == 0 {
            return true;
        }
        let ghost e = self.entries();
        let mut prev = self.key_at(0);
        let mut i: usize = 1;
        while i < n
            invariant
                n == e.len(),
                e == self.entries(),
                self.wf(),
                1 <= i <= n,
                prev@ == e[i - 1].0,
                keys_ascending(e.subrange(0, i as int)),
            decreases n - i,
        {
            let cur = self.key_at(i);
            match compare_keys(prev.as_slice(), cur.as_slice()) {
                core::cmp::Ordering::Less => {},
                _ => {
                    assert(!keys_ascending(e));
                    return false;
                },
            }
            proof {
                let s = e.subrange(0, i + 1);
                assert forall|x: int, y: int| 0 <= x < y < s.len() implies key_lt(
                    #[trigger] s[x].0,
                    #[trigger] s[y].0,
                ) by {
                    if y == i && x < i - 1 {
                        let s0 = e.subrange(0, i as int);
                        assert(s0[x] == e[x]);
                        assert(s0[i - 1] == e[i - 1]);
                        assert(key_lt(s0[x].0, s0[i - 1].0));
                        lemma_key_lt_transitive(e[x].0, e[i - 1].0, e[y].0);
                    } else if y < i {
                        assert(e.subrange(0, i as int)[x] == e[x]);
                        assert(e.subrange(0, i as int)[y] == e[y]);
                    }
                }
            }
            prev = cur;
            i = i + 1;
        }
        assert(e.subrange(0, n as int) =~= e);
        true
    }

    /// Copies out the key of entry `i`.
    pub fn key_at(&self, i: usize) -> (r: Vec<u8>)
        requires
            self.wf(),
            i < self.entries().len(),
        ensures
            r@ == self.entries()[i as int].0,
    {
        let d = self.data.as_slice();
        let o = self.offsets[i] as usize;
        assert(record_fits(d@, self.offsets@[i as int] as int));
        let klen = get_u16(d, o) as usize;
        copy_range(d, o + 2, o + 2 + klen)
    }
}

/// Decoding an encoded block gives back its payload and offset table.
pub proof fn lemma_block_encode_decode(data: Seq<u8>, offsets: Seq<u16>)
    requires
        block_parts_wf(data, offsets),
    ensures
        decode_block_spec(encode_block_spec(data, offsets)) == Some((data, offsets)),
{
    let d = encode_block_spec(data, offsets);
    let n = offsets.len() as int;
    let ob = offsets_bytes(offsets);
    crate::codec::lemma_u16_bytes(n);
    assert(d[d.len() - 2] == u16_bytes(n)[0]);
    assert(d[d.len() - 1] == u16_bytes(n)[1]);
    assert(be16(d, d.len() - 2) == n);
    let end = data.len() as int;
    assert(d.subrange(0, end) =~= data);
    let offs = Seq::new(n as nat, |i: int| be16(d, end + 2 * i) as u16);
    assert forall|i: int| 0 <= i < n implies offs[i] == offsets[i] by {
        assert(d[end + 2 * i] == ob[2 * i]);
        assert(d[end + 2 * i + 1] == ob[2 * i + 1]);
        assert((2 * i) / 2 == i);
        assert((2 * i + 1) / 2 == i);
        assert((2 * i + 1) % 2 == 1);
    }
    assert(offs =~= offsets);
}

} // verus!
