//! Builds a block from key/value pairs that arrive in ascending key order.

use vstd::prelude::*;
use crate::block::{block_entries, block_parts_wf, Block};
use crate::codec::{
    lemma_record_append, lemma_record_extend, put_slice, put_u16, record_bytes, record_fits,
};
use crate::key::{key_lt, keys_ascending, EntryView};

verus! {

/// Bytes that a run of entries takes in a block: each record, its two
/// length prefixes and its offset.
pub open spec fn entries_size(s: Seq<EntryView>) -> nat
    decreases s.len(),
{
    if s.len() == 0 {
        0
    } else {
        entries_size(s.drop_last()) + 6 + s.last().0.len() + s.last().1.len()
    }
}

/// The payload of a block holding `s`: its records in order.
#[verifier::opaque]
pub open spec fn records_bytes(s: Seq<EntryView>) -> Seq<u8>
    decreases s.len(),
{
    if s.len() == 0 {
        Seq::empty()
    } else {
        records_bytes(s.drop_last()) + record_bytes(s.last().0, s.last().1)
    }
}

/// The offset table of a block holding `s`: where each record starts.
#[verifier::opaque]
pub open spec fn record_offsets(s: Seq<EntryView>) -> Seq<u16> {
    Seq::new(s.len(), |i: int| records_bytes(s.subrange(0, i)).len() as u16)
}

/// The payload is the records of `s` in order and the offsets are where
/// each starts.
#[verifier::opaque]
pub open spec fn layout_matches(d: Seq<u8>, o: Seq<u16>, s: Seq<EntryView>) -> bool {
    d == records_bytes(s) && o == record_offsets(s)
}

proof fn lemma_layout_step(d0: Seq<u8>, o0: Seq<u16>, s: Seq<EntryView>, k: Seq<u8>, v: Seq<u8>)
    requires
        layout_matches(d0, o0, s),
    ensures
        layout_matches(d0 + record_bytes(k, v), o0.push(d0.len() as u16), s.push((k, v))),
{
    reveal(layout_matches);
    reveal(record_offsets);
    reveal(records_bytes);
    let s1 = s.push((k, v));
    assert(s1.drop_last() =~= s);
    assert forall|i: int| 0 <= i < s1.len() implies #[trigger] record_offsets(s1)[i] == o0.push(
        d0.len() as u16,
    )[i] by {
        if i < s.len() {
            assert(s1.subrange(0, i) =~= s.subrange(0, i));
        } else {
            assert(s1.subrange(0, i) =~= s);
        }
    }
    assert(record_offsets(s1) =~= o0.push(d0.len() as u16));
}

/// Whether `add` of `(k, v)` is accepted by a builder that holds `s` and
/// targets `block_size` bytes: the first entry always is, any other only
/// where the block stays within the target.
pub open spec fn add_accepted(s: Seq<EntryView>, block_size: nat, k: Seq<u8>, v: Seq<u8>) -> bool {
    s.len() == 0 || 2 + entries_size(s) + 6 + k.len() + v.len() <= block_size
}

/// Accumulates records into a block up to a target size.
pub struct BlockBuilder {
    offsets: Vec<u16>,
    data: Vec<u8>,
    block_size: usize,
    first_key: Vec<u8>,
    last_key: Vec<u8>,
    entries: Ghost<Seq<EntryView>>,
}

impl BlockBuilder {
    pub closed spec fn wf(&self) -> bool {
        let s = self.entries@;
        &&& block_parts_wf(self.data@, self.offsets@)
        &&& block_entries(self.data@, self.offsets@) == s
        &&& layout_matches(self.data@, self.offsets@, s)
        &&& keys_ascending(s)
        &&& self.block_size <= 65535
        &&& self.data@.len() + 2 * self.offsets@.len() == entries_size(s)
        &&& entries_size(s) <= 131076
        &&& (s.len() >= 2 ==> 2 + entries_size(s) <= self.block_size)
        &&& (s.len() > 0 ==> self.first_key@ == s[0].0 && self.last_key@ == s.last().0)
    }

    /// Facts of a well-formed builder.
    pub proof fn lemma_wf(&self)
        requires
            self.wf(),
        ensures
            keys_ascending(self.entries()),
            self.target_size() <= 65535,
            entries_size(self.entries()) <= 131076,
            self.entries().len() >= 2 ==> 2 + entries_size(self.entries()) <= self.target_size(),
            forall|i: int|
                0 <= i < self.entries().len() ==> 1 <= (#[trigger] self.entries()[i]).0.len() < 65536,
    {
        assert forall|i: int| 0 <= i < self.entries().len() implies 1 <= (
        #[trigger] self.entries()[i]).0.len() < 65536 by {
            assert(record_fits(self.data@, self.offsets@[i] as int));
        }
    }

    /// The entries added so far, in order.
    pub closed spec fn entries(&self) -> Seq<EntryView> {
        self.entries@
    }

    /// The target size in bytes.
    pub closed spec fn target_size(&self) -> nat {
        self.block_size as nat
    }

    /// Creates an empty builder with a target block size in bytes; offsets
    /// are `u16`, so the target cannot exceed their range.
    pub fn new(block_size: usize) -> (r: Self)
        requires
            block_size <= 65535,
        ensures
            r.wf(),
            r.entries() == Seq::<EntryView>::empty(),
            r.target_size() == block_size,
    {
        let r = BlockBuilder {
            offsets: Vec::new(),
            data: Vec::new(),
            block_size,
            first_key: Vec::new(),
            last_key: Vec::new(),
            entries: Ghost(Seq::empty()),
        };
        assert(block_entries(r.data@, r.offsets@) =~= Seq::<EntryView>::empty());
        assert(layout_matches(r.data@, r.offsets@, Seq::<EntryView>::empty())) by {
            reveal(record_offsets);
            reveal(records_bytes);
            reveal(layout_matches);
            assert(r.offsets@ =~= record_offsets(Seq::<EntryView>::empty()));
            assert(r.data@ =~= records_bytes(Seq::<EntryView>::empty()));
        }
        r
    }

    /// Payload, offsets and count, in bytes.
    pub fn estimated_size(&self) -> (r: usize)
        requires
            self.wf(),
        ensures
            r == 2 + entries_size(self.entries()),
    {
        self.data.len() + 2 * self.offsets.len() + 2
    }

    /// Appends a record. Returns false, and changes nothing, where the block
    /// already holds an entry and the record would take it past the target.
    #[verifier::spinoff_prover]
    pub fn add(&mut self, key: &[u8], value: &[u8]) -> (r: bool)
        requires
            old(self).wf(),
            1 <= key@.len() <= 65535,
            value@.len() <= 65535,
            old(self).entries().len() > 0 ==> key_lt(old(self).entries().last().0, key@),
        ensures
            final(self).wf(),
            final(self).target_size() == old(self).target_size(),
            r == add_accepted(old(self).entries(), old(self).target_size(), key@, value@),
            final(self).entries() == if r {
                old(self).entries().push((key@, value@))
            } else {
                old(self).entries()
            },
    {
        let ghost s = self.entries@;
        let n = self.offsets.len();
        if n > 0 && self.data.len() + 2 * n + 2 + 6 + key.len() + value.len() > self.block_size {
            return false;
        }
        let ghost d0 = self.data@;
        let ghost o0 = self.offsets@;
        let off = self.data.len() as u16;
        put_u16(&mut self.data, key.len() as u16);
        put_slice(&mut self.data, key);
        put_u16(&mut self.data, value.len() as u16);
        put_slice(&mut self.data, value);
        self.offsets.push(off);
        if n == 0 {
            self.first_key = vstd::slice::slice_to_vec(key);
        }
        self.last_key = vstd::slice::slice_to_vec(key);
        let ghost s1 = s.push((key@, value@));
        self.entries = Ghost(s1);
        proof {
            assert(self.data@ =~= d0 + record_bytes(key@, value@)) by {
                lemma_layout_step(d0, o0, s, key@, value@);
            }
            assert(layout_matches(self.data@, o0.push(off), s1)) by {
                lemma_layout_step(d0, o0, s, key@, value@);
            }
        }
        proof {
            assert(self.data@ =~= d0 + record_bytes(key@, value@));
            let d1 = self.data@;
            lemma_record_append(d0, key@, value@);
            assert forall|i: int| 0 <= i < n implies record_fits_key(d0, d1, #[trigger] o0[i] as int) by {
                lemma_record_extend(d0, record_bytes(key@, value@), o0[i] as int);
            }
            assert(block_entries(d1, self.offsets@) =~= s1);
            assert(s1.drop_last() =~= s);
            assert forall|i: int, j: int| 0 <= i < j < s1.len() implies key_lt(#[trigger] s1[i].0, #[trigger] s1[j].0) by {
                if j == s1.len() - 1 && i < j {
                    if i < s.len() - 1 {
                        crate::key::lemma_key_lt_transitive(s[i].0, s.last().0, key@);
                    }
                }
            }
        }
        true
    }

    /// Whether no entry has been added.
    pub fn is_empty(&self) -> (r: bool)
        requires
            self.wf(),
        ensures
            r == (self.entries().len() == 0),
    {
        self.offsets.len() == 0
    }

    /// The first key added.
    pub fn first_key(&self) -> (r: &[u8])
        requires
            self.wf(),
            self.entries().len() > 0,
        ensures
            r@ == self.entries()[0].0,
    {
        self.first_key.as_slice()
    }

    /// The last key added.
    pub fn last_key(&self) -> (r: &[u8])
        requires
            self.wf(),
            self.entries().len() > 0,
        ensures
            r@ == self.entries().last().0,
    {
        self.last_key.as_slice()
    }

    /// Finalizes the builder into a block holding the added entries.
    pub fn build(self) -> (r: Block)
        requires
            self.wf(),
        ensures
            r.wf(),
            r.entries() == self.entries(),
            r.data@.len() + 2 * r.offsets@.len() == entries_size(self.entries()),
            r.data@ == records_bytes(self.entries()),
            r.offsets@ == record_offsets(self.entries()),
    {
        proof {
            reveal(layout_matches);
        }
        Block { data: self.data, offsets: self.offsets }
    }
}

/// A record of `d0` reads the same in `d1`.
spec fn record_fits_key(d0: Seq<u8>, d1: Seq<u8>, o: int) -> bool {
    &&& crate::codec::record_fits(d1, o)
    &&& crate::codec::record_key(d1, o) == crate::codec::record_key(d0, o)
    &&& crate::codec::record_value(d1, o) == crate::codec::record_value(d0, o)
    &&& crate::codec::be16(d1, o) == crate::codec::be16(d0, o)
}

} // verus!
