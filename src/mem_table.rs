//! The in-memory table: an ordered map from keys to values on a lock-free
//! skiplist, with range scans.

use vstd::prelude::*;
use std::ops::Bound;
use crossbeam_skiplist::SkipMap;
use crate::iterators::StorageIterator;
use crate::key::{key_le, key_lt, keys_ascending, EntryView};
use crate::table_builder::SsTableBuilder;
use crate::LsmError;

verus! {

#[verifier::external_type_specification]
#[verifier::external_body]
#[verifier::reject_recursive_types(K)]
#[verifier::reject_recursive_types(V)]
pub struct ExSkipMap<K, V>(SkipMap<K, V>);

#[verifier::external_type_specification]
#[verifier::reject_recursive_types(T)]
pub struct ExBound<T>(Bound<T>);

/// What a skiplist map holds.
pub uninterp spec fn skipmap_contents(m: SkipMap<Vec<u8>, Vec<u8>>) -> Map<Seq<u8>, Seq<u8>>;

/// `k` lies on the inner side of a lower bound.
pub open spec fn above_lower(k: Seq<u8>, b: Bound<&[u8]>) -> bool {
    match b {
        Bound::Included(x) => key_le(x@, k),
        Bound::Excluded(x) => key_lt(x@, k),
        Bound::Unbounded => true,
    }
}

/// `k` lies on the inner side of an upper bound.
pub open spec fn below_upper(k: Seq<u8>, b: Bound<&[u8]>) -> bool {
    match b {
        Bound::Included(x) => key_le(k, x@),
        Bound::Excluded(x) => key_lt(k, x@),
        Bound::Unbounded => true,
    }
}

/// `s` lists, in strictly ascending key order, exactly the entries of `m`
/// whose keys lie within the bounds.
pub open spec fn lists_range(
    s: Seq<EntryView>,
    m: Map<Seq<u8>, Seq<u8>>,
    lower: Bound<&[u8]>,
    upper: Bound<&[u8]>,
) -> bool {
    &&& keys_ascending(s)
    &&& forall|i: int|
        0 <= i < s.len() ==> m.contains_key(#[trigger] s[i].0) && m[s[i].0] == s[i].1
            && above_lower(s[i].0, lower) && below_upper(s[i].0, upper)
    &&& forall|k: Seq<u8>|
        m.contains_key(k) && above_lower(k, lower) && below_upper(k, upper) ==> exists|i: int|
            0 <= i < s.len() && #[trigger] s[i].0 == k
}

/// Bytes a run of records can take in blocks at most: each record with
/// its two length prefixes, its offset, and a block count.
pub open spec fn entries_cost(s: Seq<EntryView>) -> nat
    decreases s.len(),
{
    if s.len() == 0 {
        0
    } else {
        entries_cost(s.drop_last()) + 8 + s.last().0.len() + s.last().1.len()
    }
}

proof fn lemma_cost_step(s: Seq<EntryView>, i: int)
    requires
        0 <= i < s.len(),
    ensures
        entries_cost(s.subrange(0, i + 1)) == entries_cost(s.subrange(0, i)) + 8 + s[i].0.len()
            + s[i].1.len(),
{
    assert(s.subrange(0, i + 1).drop_last() =~= s.subrange(0, i));
}

proof fn lemma_cost_prefix(s: Seq<EntryView>, i: int)
    requires
        0 <= i <= s.len(),
    ensures
        entries_cost(s.subrange(0, i)) <= entries_cost(s),
    decreases s.len() - i,
{
    if i < s.len() {
        lemma_cost_step(s, i);
        lemma_cost_prefix(s, i + 1);
    } else {
        assert(s.subrange(0, i) =~= s);
    }
}

/// The map with no entry.
pub open spec fn no_entries() -> Map<Seq<u8>, Seq<u8>> {
    Map::empty()
}

pub open spec fn pairs_view(v: Seq<(Vec<u8>, Vec<u8>)>) -> Seq<EntryView> {
    Seq::new(v.len(), |i: int| (v[i].0@, v[i].1@))
}

/// Relies on `SkipMap::new`: a new map is empty.
#[verifier::external_body]
fn skipmap_new() -> (r: SkipMap<Vec<u8>, Vec<u8>>)
    ensures
        skipmap_contents(r) == no_entries(),
{
    SkipMap::new()
}

/// Relies on `SkipMap::insert`: the entry for `key` is replaced or added.
#[verifier::external_body]
fn skipmap_insert(m: &mut SkipMap<Vec<u8>, Vec<u8>>, key: Vec<u8>, value: Vec<u8>)
    ensures
        skipmap_contents(*final(m)) == skipmap_contents(*old(m)).insert(key@, value@),
{
    m.insert(key, value);
}

/// Relies on `SkipMap::get`: the value stored under `key`, if any.
#[verifier::external_body]
fn skipmap_get(m: &SkipMap<Vec<u8>, Vec<u8>>, key: &[u8]) -> (r: Option<Vec<u8>>)
    ensures
        r is Some <==> skipmap_contents(*m).contains_key(key@),
        r matches Some(v) ==> v@ == skipmap_contents(*m)[key@],
{
    m.get(key).map(|e| e.value().clone())
}

/// Relies on `SkipMap::is_empty`: whether the map holds no entry.
#[verifier::external_body]
fn skipmap_is_empty(m: &SkipMap<Vec<u8>, Vec<u8>>) -> (r: bool)
    ensures
        r == (skipmap_contents(*m).dom() == Set::<Seq<u8>>::empty()),
{
    m.is_empty()
}

/// Relies on `SkipMap::range`: the entries within the bounds, in ascending
/// key order (the order of `Vec<u8>`, lexicographic).
#[verifier::external_body]
fn skipmap_range(m: &SkipMap<Vec<u8>, Vec<u8>>, lower: Bound<&[u8]>, upper: Bound<&[u8]>) -> (r: Vec<(Vec<u8>, Vec<u8>)>)
    ensures
        lists_range(pairs_view(r@), skipmap_contents(*m), lower, upper),
{
    m.range::<[u8], _>((lower, upper)).map(|e| (e.key().clone(), e.value().clone())).collect()
}

/// A mem-table: an ordered map with an identifier and a count of the bytes
/// written to it.
pub struct MemTable {
    map: SkipMap<Vec<u8>, Vec<u8>>,
    id: usize,
    approximate_size: usize,
}

impl MemTable {
    /// The entries of the table.
    pub closed spec fn contents(&self) -> Map<Seq<u8>, Seq<u8>> {
        skipmap_contents(self.map)
    }

    /// Every key is 1 to 65535 bytes long, every value at most 65535.
    pub closed spec fn wf(&self) -> bool {
        forall|k: Seq<u8>|
            #[trigger] self.contents().contains_key(k) ==> 1 <= k.len() <= 65535
                && self.contents()[k].len() <= 65535
    }

    pub closed spec fn id_spec(&self) -> usize {
        self.id
    }

    pub closed spec fn approximate_size_spec(&self) -> usize {
        self.approximate_size
    }

    /// Creates an empty mem-table.
    pub fn create(id: usize) -> (r: Self)
        ensures
            r.wf(),
            r.contents() == Map::<Seq<u8>, Seq<u8>>::empty(),
            r.id_spec() == id,
            r.approximate_size_spec() == 0,
    {
        MemTable { map: skipmap_new(), id, approximate_size: 0 }
    }

    /// The value stored under `key`, if any.
    pub fn get(&self, key: &[u8]) -> (r: Option<Vec<u8>>)
        ensures
            r is Some <==> self.contents().contains_key(key@),
            r matches Some(v) ==> v@ == self.contents()[key@],
    {
        skipmap_get(&self.map, key)
    }

    /// Inserts or replaces the entry for `key` and counts its bytes.
    pub fn put(&mut self, key: &[u8], value: &[u8]) -> (r: Result<(), LsmError>)
        requires
            old(self).wf(),
            1 <= key@.len() <= 65535,
            value@.len() <= 65535,
        ensures
            r is Ok,
            final(self).wf(),
            final(self).contents() == old(self).contents().insert(key@, value@),
            final(self).id_spec() == old(self).id_spec(),
            final(self).approximate_size_spec() == old(self).approximate_size_spec().wrapping_add(
                (key@.len() + value@.len()) as usize,
            ),
    {
        skipmap_insert(&mut self.map, vstd::slice::slice_to_vec(key), vstd::slice::slice_to_vec(value));
        self.approximate_size = self.approximate_size.wrapping_add(key.len() + value.len());
        assert forall|k: Seq<u8>| #[trigger] self.contents().contains_key(k) implies 1 <= k.len() <= 65535
            && self.contents()[k].len() <= 65535 by {
            if k != key@ {
                assert(old(self).contents().contains_key(k));
            }
        }
        Ok(())
    }

    /// Same as `put`.
    pub fn for_testing_put_slice(&mut self, key: &[u8], value: &[u8]) -> (r: Result<(), LsmError>)
        requires
            old(self).wf(),
            1 <= key@.len() <= 65535,
            value@.len() <= 65535,
        ensures
            r is Ok,
            final(self).wf(),
            final(self).contents() == old(self).contents().insert(key@, value@),
    {
        self.put(key, value)
    }

    /// Same as `get`.
    pub fn for_testing_get_slice(&self, key: &[u8]) -> (r: Option<Vec<u8>>)
        ensures
            r is Some <==> self.contents().contains_key(key@),
            r matches Some(v) ==> v@ == self.contents()[key@],
    {
        self.get(key)
    }

    /// Same as `scan`.
    pub fn for_testing_scan_slice(&self, lower: Bound<&[u8]>, upper: Bound<&[u8]>) -> (r: MemTableIterator)
        ensures
            r.inv(),
            lists_range(r.rest(), self.contents(), lower, upper),
    {
        self.scan(lower, upper)
    }

    /// Durability is the write-ahead log's concern; none is attached here.
    pub fn sync_wal(&self) -> (r: Result<(), LsmError>)
        ensures
            r is Ok,
    {
        Ok(())
    }

    /// An iterator over the entries within the bounds, positioned at the
    /// first of them. It holds a snapshot of those entries.
    pub fn scan(&self, lower: Bound<&[u8]>, upper: Bound<&[u8]>) -> (r: MemTableIterator)
        ensures
            r.inv(),
            lists_range(r.rest(), self.contents(), lower, upper),
    {
        let items = skipmap_range(&self.map, lower, upper);
        let r = MemTableIterator { items, idx: 0 };
        assert(r.rest() =~= pairs_view(r.items@));
        r
    }

    /// Adds every entry, in ascending key order, to a table builder whose
    /// entries all lie below this table's keys. Fails with `TooLarge`, and
    /// adds nothing, where the blocks could outgrow the `u32` offsets of
    /// the format: each record is counted at its largest cost, 8 bytes
    /// beside its key and value.
    pub fn flush(&self, builder: &mut SsTableBuilder) -> (r: Result<(), LsmError>)
        requires
            self.wf(),
            old(builder).wf(),
            old(builder).entries().len() > 0 ==> forall|k: Seq<u8>|
                #[trigger] self.contents().contains_key(k) ==> key_lt(
                    old(builder).entries().last().0,
                    k,
                ),
        ensures
            final(builder).wf(),
            r is Err ==> r == Err::<(), LsmError>(LsmError::TooLarge) && final(builder).entries()
                == old(builder).entries() && exists|s: Seq<EntryView>|
                lists_range(s, self.contents(), Bound::Unbounded, Bound::Unbounded)
                    && old(builder).pending_size() + entries_cost(s) >= 0x1_0000_0000,
            r is Ok ==> ({
                let n0 = old(builder).entries().len() as int;
                let added = final(builder).entries().subrange(n0, final(builder).entries().len() as int);
                &&& n0 <= final(builder).entries().len()
                &&& final(builder).entries().subrange(0, n0) == old(builder).entries()
                &&& lists_range(added, self.contents(), Bound::Unbounded, Bound::Unbounded)
                &&& old(builder).pending_size() + entries_cost(added) < 0x1_0000_0000
            }),
    {
        let items = skipmap_range(&self.map, Bound::Unbounded, Bound::Unbounded);
        let ghost s = pairs_view(items@);
        let ghost e0 = builder.entries();
        let ghost p0 = builder.pending_size();
        let n = items.len();
        let pending = builder.bytes_pending();
        let mut total: u64 = pending as u64;
        let mut i: usize = 0;
        while i < n
            invariant
                n == items@.len(),
                s == pairs_view(items@),
                lists_range(s, self.contents(), Bound::Unbounded, Bound::Unbounded),
                self.wf(),
                i <= n,
                total == p0 + entries_cost(s.subrange(0, i as int)),
                total < 0x1_0000_0000,
                *builder == *old(builder),
                builder.wf(),
                p0 == old(builder).pending_size(),
            decreases n - i,
        {
            assert(self.contents().contains_key(s[i as int].0));
            let cost = 8 + items[i].0.len() + items[i].1.len();
            proof {
                lemma_cost_step(s, i as int);
            }
            total = total + cost as u64;
            if total >= 0x1_0000_0000 {
                proof {
                    lemma_cost_prefix(s, i + 1);
                    assert(lists_range(s, self.contents(), Bound::Unbounded, Bound::Unbounded)
                        && old(builder).pending_size() + entries_cost(s) >= 0x1_0000_0000);
                }
                return Err(LsmError::TooLarge);
            }
            i = i + 1;
        }
        assert(s.subrange(0, n as int) =~= s);
        let mut i: usize = 0;
        while i < n
            invariant
                n == items@.len(),
                s == pairs_view(items@),
                lists_range(s, self.contents(), Bound::Unbounded, Bound::Unbounded),
                self.wf(),
                i <= n,
                builder.wf(),
                builder.entries() == e0 + s.subrange(0, i as int),
                builder.pending_size() <= p0 + entries_cost(s.subrange(0, i as int)),
                p0 + entries_cost(s) < 0x1_0000_0000,
                e0.len() > 0 ==> forall|k: Seq<u8>|
                    #[trigger] self.contents().contains_key(k) ==> key_lt(e0.last().0, k),
            decreases n - i,
        {
            let key = items[i].0.as_slice();
            let value = items[i].1.as_slice();
            assert(s[i as int] == (key@, value@));
            assert(self.contents().contains_key(s[i as int].0));
            assert(self.contents()[key@] == value@);
            proof {
                lemma_cost_step(s, i as int);
                lemma_cost_prefix(s, i + 1);
                if i > 0 {
                    assert(builder.entries().last() == s[i - 1]);
                    assert(key_lt(s[i - 1].0, s[i as int].0));
                } else if e0.len() > 0 {
                    assert(builder.entries() =~= e0);
                }
            }
            builder.add(key, value);
            i = i + 1;
            assert(builder.entries() =~= e0 + s.subrange(0, i as int));
        }
        proof {
            let f = builder.entries();
            assert(f.subrange(e0.len() as int, f.len() as int) =~= s);
            assert(f.subrange(0, e0.len() as int) =~= e0);
        }
        Ok(())
    }

    /// The table's identifier.
    pub fn id(&self) -> (r: usize)
        ensures
            r == self.id_spec(),
    {
        self.id
    }

    /// Bytes of keys and values written so far, counting overwritten ones.
    pub fn approximate_size(&self) -> (r: usize)
        ensures
            r == self.approximate_size_spec(),
    {
        self.approximate_size
    }

    /// Whether the table holds no entry.
    pub fn is_empty(&self) -> (r: bool)
        ensures
            r == (self.contents().dom() == Set::<Seq<u8>>::empty()),
    {
        skipmap_is_empty(&self.map)
    }
}

/// A cursor over the entries a scan found, in ascending key order.
pub struct MemTableIterator {
    items: Vec<(Vec<u8>, Vec<u8>)>,
    idx: usize,
}

impl MemTableIterator {
    pub closed spec fn inv(&self) -> bool {
        self.idx <= self.items@.len()
    }

    /// The entries from the current one to the end.
    pub closed spec fn rest(&self) -> Seq<EntryView> {
        pairs_view(self.items@).subrange(self.idx as int, self.items@.len() as int)
    }
}

impl StorageIterator for MemTableIterator {
    open spec fn inv(&self) -> bool {
        self.inv()
    }

    open spec fn remaining(&self) -> Seq<EntryView> {
        self.rest()
    }

    open spec fn reliable(&self) -> bool {
        true
    }

    open spec fn fails_with(&self, e: LsmError) -> bool {
        false
    }

    fn key(&self) -> (r: &[u8]) {
        self.items[self.idx].0.as_slice()
    }

    fn value(&self) -> (r: &[u8]) {
        self.items[self.idx].1.as_slice()
    }

    fn is_valid(&self) -> (r: bool) {
        self.idx < self.items.len()
    }

    fn next(&mut self) -> (r: Result<(), LsmError>) {
        if self.idx < self.items.len() {
            self.idx = self.idx + 1;
        }
        assert(self.rest() =~= if old(self).rest().len() > 0 {
            old(self).rest().drop_first()
        } else {
            old(self).rest()
        });
        Ok(())
    }
}

} // verus!
