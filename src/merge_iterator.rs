//! K-way ordered merge of iterators with source priority and deletion
//! markers.

use vstd::prelude::*;
use crate::iterators::StorageIterator;
use crate::key::{compare_keys, key_lt, lemma_key_lt_total, lemma_key_lt_transitive, EntryView};
use crate::LsmError;

verus! {

/// Total number of entries over all sources.
pub open spec fn total_len(s: Seq<Seq<EntryView>>) -> nat
    decreases s.len(),
{
    if s.len() == 0 {
        0
    } else {
        total_len(s.drop_last()) + s.last().len()
    }
}

/// Among the first `n` sources, the non-empty one with the smallest head
/// key, the lowest index on equal keys; -1 where all are empty.
pub open spec fn min_src_upto(s: Seq<Seq<EntryView>>, n: int) -> int
    decreases n,
{
    if n <= 0 {
        -1
    } else {
        let m = min_src_upto(s, n - 1);
        if s[n - 1].len() == 0 {
            m
        } else if m < 0 || key_lt(s[n - 1][0].0, s[m][0].0) {
            n - 1
        } else {
            m
        }
    }
}

/// The source whose head comes out next, or -1 where all are empty.
pub open spec fn min_src(s: Seq<Seq<EntryView>>) -> int {
    min_src_upto(s, s.len() as int)
}

/// Every source whose head key is `k` steps past it.
pub open spec fn advance(s: Seq<Seq<EntryView>>, k: Seq<u8>) -> Seq<Seq<EntryView>> {
    Seq::new(
        s.len(),
        |i: int|
            if s[i].len() > 0 && s[i][0].0 == k {
                s[i].drop_first()
            } else {
                s[i]
            },
    )
}

/// The merged stream: keys in ascending order, each key once with the value
/// of the lowest-index source that holds it, and keys whose chosen value is
/// empty (a deletion marker) left out.
pub open spec fn merged(s: Seq<Seq<EntryView>>) -> Seq<EntryView>
    decreases total_len(s),
    via merged_decreases
{
    let m = min_src(s);
    if m < 0 {
        Seq::empty()
    } else {
        let e = s[m][0];
        let rest = merged(advance(s, e.0));
        if e.1.len() == 0 {
            rest
        } else {
            seq![e] + rest
        }
    }
}

#[via_fn]
proof fn merged_decreases(s: Seq<Seq<EntryView>>) {
    let m = min_src(s);
    if m >= 0 {
        lemma_min_src(s, s.len() as int);
        lemma_advance_len(s, s[m][0].0, m);
    }
}

pub proof fn lemma_min_src(s: Seq<Seq<EntryView>>, n: int)
    requires
        0 <= n <= s.len(),
    ensures
        ({
            let m = min_src_upto(s, n);
            &&& -1 <= m < n
            &&& m < 0 ==> forall|i: int| 0 <= i < n ==> #[trigger] s[i].len() == 0
            &&& m >= 0 ==> s[m].len() > 0
            &&& m >= 0 ==> forall|i: int|
                0 <= i < n && #[trigger] s[i].len() > 0 ==> (i < m ==> key_lt(s[m][0].0, s[i][0].0))
                    && (i > m ==> !key_lt(s[i][0].0, s[m][0].0))
        }),
    decreases n,
{
    if n > 0 {
        lemma_min_src(s, n - 1);
        let p = min_src_upto(s, n - 1);
        let m = min_src_upto(s, n);
        if s[n - 1].len() > 0 && p >= 0 && key_lt(s[n - 1][0].0, s[p][0].0) {
            assert forall|i: int| 0 <= i < n && #[trigger] s[i].len() > 0 && i < m implies key_lt(
                s[m][0].0,
                s[i][0].0,
            ) by {
                if i < p {
                    lemma_key_lt_transitive(s[m][0].0, s[p][0].0, s[i][0].0);
                } else if i > p {
                    lemma_key_lt_total(s[i][0].0, s[p][0].0);
                    if key_lt(s[p][0].0, s[i][0].0) {
                        lemma_key_lt_transitive(s[m][0].0, s[p][0].0, s[i][0].0);
                    }
                }
            }
        }
    }
}

/// Advancing past a key that heads source `m` removes at least one entry.
pub proof fn lemma_advance_len(s: Seq<Seq<EntryView>>, k: Seq<u8>, m: int)
    requires
        0 <= m < s.len(),
        s[m].len() > 0,
        s[m][0].0 == k,
    ensures
        total_len(advance(s, k)) < total_len(s),
    decreases s.len(),
{
    lemma_advance_len_le(s, k);
    let a = advance(s, k);
    assert(a.drop_last() =~= advance(s.drop_last(), k));
    if m < s.len() - 1 {
        lemma_advance_len(s.drop_last(), k, m);
    } else {
        lemma_advance_len_le(s.drop_last(), k);
    }
}

proof fn lemma_advance_len_le(s: Seq<Seq<EntryView>>, k: Seq<u8>)
    ensures
        total_len(advance(s, k)) <= total_len(s),
    decreases s.len(),
{
    if s.len() > 0 {
        let a = advance(s, k);
        assert(a.drop_last() =~= advance(s.drop_last(), k));
        lemma_advance_len_le(s.drop_last(), k);
    }
}

/// Merges iterators of one type. Where a key occurs in several of them, the
/// one with the smallest index wins; keys whose winning value is empty are
/// deletions and are skipped.
pub struct MergeIterator<I: StorageIterator> {
    iters: Vec<Box<I>>,
    current: Option<usize>,
}

/// The remaining entries of each iterator, in source order.
pub open spec fn sources_of<I: StorageIterator>(iters: Seq<Box<I>>) -> Seq<Seq<EntryView>> {
    Seq::new(iters.len(), |i: int| iters[i].remaining())
}

/// `next` cannot fail on any of the iterators.
pub open spec fn all_reliable<I: StorageIterator>(iters: Seq<Box<I>>) -> bool {
    forall|i: int| 0 <= i < iters.len() ==> #[trigger] iters[i].reliable()
}

/// Some iterator's `next` may fail with `e`.
pub open spec fn any_fails_with<I: StorageIterator>(iters: Seq<Box<I>>, e: LsmError) -> bool {
    exists|i: int| 0 <= i < iters.len() && #[trigger] iters[i].fails_with(e)
}

/// Each iterator may fail with the same errors in `a` as in `b`.
pub open spec fn same_failures<I: StorageIterator>(a: Seq<Box<I>>, b: Seq<Box<I>>) -> bool {
    &&& a.len() == b.len()
    &&& forall|i: int, e: LsmError| 0 <= i < a.len() ==> #[trigger] a[i].fails_with(e) == b[i].fails_with(e)
}

proof fn lemma_same_failures<I: StorageIterator>(a: Seq<Box<I>>, b: Seq<Box<I>>)
    requires
        same_failures(a, b),
    ensures
        forall|e: LsmError| #[trigger] any_fails_with(a, e) == any_fails_with(b, e),
{
    assert forall|e: LsmError| #[trigger] any_fails_with(a, e) == any_fails_with(b, e) by {
        if any_fails_with(a, e) {
            let i = choose|i: int| 0 <= i < a.len() && #[trigger] a[i].fails_with(e);
            assert(b[i].fails_with(e));
        }
        if any_fails_with(b, e) {
            let i = choose|i: int| 0 <= i < b.len() && #[trigger] b[i].fails_with(e);
            assert(a[i].fails_with(e));
        }
    }
}

/// Every iterator is internally consistent.
pub open spec fn all_inv<I: StorageIterator>(iters: Seq<Box<I>>) -> bool {
    forall|i: int| 0 <= i < iters.len() ==> #[trigger] iters[i].inv()
}

impl<I: StorageIterator> MergeIterator<I> {
    /// The remaining entries of each source, in priority order.
    pub closed spec fn sources(&self) -> Seq<Seq<EntryView>> {
        sources_of(self.iters@)
    }

    pub closed spec fn merge_inv(&self) -> bool {
        &&& all_inv(self.iters@)
        &&& match self.current {
            None => true,
            Some(m) => m == min_src(self.sources()) && self.sources()[m as int][0].1.len() > 0,
        }
    }

    /// `next` cannot fail on any source.
    pub closed spec fn all_sources_reliable(&self) -> bool {
        all_reliable(self.iters@)
    }

    /// Some source's `next` may fail with `e`.
    pub closed spec fn source_fails_with(&self, e: LsmError) -> bool {
        any_fails_with(self.iters@, e)
    }

    /// What the merge still emits.
    pub closed spec fn merge_remaining(&self) -> Seq<EntryView> {
        if self.current is Some {
            merged(self.sources())
        } else {
            Seq::empty()
        }
    }

    proof fn lemma_current(&self)
        requires
            self.merge_inv(),
            self.current is Some,
        ensures
            ({
                let m = self.current->Some_0 as int;
                let s = self.sources();
                &&& 0 <= m < self.iters@.len()
                &&& s[m].len() > 0
                &&& self.iters@[m].inv()
                &&& self.iters@[m].remaining() == s[m]
                &&& merged(s) == seq![s[m][0]] + merged(advance(s, s[m][0].0))
            }),
    {
        lemma_min_src(self.sources(), self.sources().len() as int);
    }

    /// Builds a merge over `iters`, the first having the highest priority,
    /// and positions it at its first entry. Fails where a source fails while
    /// leading deletions are skipped.
    pub fn create(iters: Vec<Box<I>>) -> (r: Result<Self, LsmError>)
        requires
            all_inv(iters@),
        ensures
            all_reliable(iters@) ==> (r matches Ok(m) && m.all_sources_reliable()),
            min_src(sources_of(iters@)) < 0 || sources_of(iters@)[min_src(sources_of(iters@))][0].1.len()
                > 0 ==> r is Ok,
            r matches Ok(m) ==> m.merge_inv() && m.merge_remaining() == merged(sources_of(iters@)),
            r matches Err(e) ==> any_fails_with(iters@, e),
    {
        let mut m = MergeIterator { iters, current: None };
        match m.settle() {
            Ok(()) => Ok(m),
            Err(e) => Err(e),
        }
    }

    /// The source whose head comes out next.
    fn find_min(&self) -> (r: Option<usize>)
        requires
            all_inv(self.iters@),
        ensures
            match r {
                None => min_src(self.sources()) < 0,
                Some(m) => m as int == min_src(self.sources()),
            },
    {
        let n = self.iters.len();
        let mut best: Option<usize> = None;
        let mut i: usize = 0;
        while i < n
            invariant
                n == self.iters@.len(),
                i <= n,
                all_inv(self.iters@),
                match best {
                    None => min_src_upto(self.sources(), i as int) < 0,
                    Some(b) => b as int == min_src_upto(self.sources(), i as int),
                },
            decreases n - i,
        {
            proof {
                lemma_min_src(self.sources(), i as int);
            }
            assert(self.iters@[i as int].inv());
            if self.iters[i].is_valid() {
                match best {
                    None => {
                        best = Some(i);
                    },
                    Some(b) => {
                        assert(self.iters@[b as int].inv());
                        match compare_keys(self.iters[i].key(), self.iters[b].key()) {
                            core::cmp::Ordering::Less => {
                                best = Some(i);
                            },
                            _ => {},
                        }
                    },
                }
            }
            i = i + 1;
        }
        best
    }

    /// Steps every source whose head key is `k` past it.
    fn advance_all(&mut self, k: &[u8]) -> (r: Result<(), LsmError>)
        requires
            all_inv(old(self).iters@),
        ensures
            all_inv(final(self).iters@),
            final(self).iters@.len() == old(self).iters@.len(),
            r is Ok ==> final(self).sources() == advance(old(self).sources(), k@),
            all_reliable(old(self).iters@) ==> r is Ok && all_reliable(final(self).iters@),
            final(self).current == old(self).current,
            same_failures(final(self).iters@, old(self).iters@),
            r matches Err(e) ==> any_fails_with(old(self).iters@, e),
    {
        let ghost s0 = self.sources();
        let n = self.iters.len();
        let mut i: usize = 0;
        while i < n
            invariant
                n == self.iters@.len(),
                n == s0.len(),
                n == old(self).iters@.len(),
                s0 == sources_of(old(self).iters@),
                all_reliable(old(self).iters@) ==> all_reliable(self.iters@),
                self.current == old(self).current,
                same_failures(self.iters@, old(self).iters@),
                i <= n,
                all_inv(self.iters@),
                forall|j: int| 0 <= j < i ==> #[trigger] self.sources()[j] == advance(s0, k@)[j],
                forall|j: int| i <= j < n ==> #[trigger] self.sources()[j] == s0[j],
            decreases n - i,
        {
            assert(self.iters@[i as int].inv());
            assert(self.sources()[i as int] == s0[i as int]);
            assert(self.sources()[i as int] == self.iters@[i as int].remaining());
            let ghost start = self.iters@;
            if self.iters[i].is_valid() {
                let same = match compare_keys(self.iters[i].key(), k) {
                    core::cmp::Ordering::Equal => true,
                    _ => false,
                };
                if same {
                    let ghost before = self.iters@;
                    let r = self.iters[i].next();
                    assert(self.iters@.len() == before.len());
                    assert(self.iters@[i as int].inv());
                    assert(forall|j: int| 0 <= j < n && j != i ==> self.iters@[j] == before[j]);
                    assert(all_reliable(old(self).iters@) ==> all_reliable(self.iters@));
                    assert forall|j: int, e: LsmError| 0 <= j < n implies #[trigger] self.iters@[j].fails_with(e)
                        == old(self).iters@[j].fails_with(e) by {
                        if j == i {
                            assert(self.iters@[j].fails_with(e) == before[j].fails_with(e));
                        } else {
                            assert(self.iters@[j] == before[j]);
                        }
                        assert(before[j].fails_with(e) == old(self).iters@[j].fails_with(e));
                    }
                    proof {
                        if let Err(e) = r {
                            assert(before[i as int].fails_with(e));
                            assert(old(self).iters@[i as int].fails_with(e));
                        }
                    }
                    assert(forall|j: int| 0 <= j < n && j != i ==> #[trigger] sources_of(self.iters@)[j] == sources_of(before)[j]);
                    if r.is_err() {
                        return r;
                    }
                    assert(before[i as int].remaining().len() > 0);
                    assert(self.iters@[i as int].remaining() == before[i as int].remaining().drop_first());
                    assert(s0[i as int] == before[i as int].remaining());
                    assert(s0[i as int][0].0 == k@);
                }
            }
            assert(self.sources()[i as int] == advance(s0, k@)[i as int]);
            assert(forall|j: int| 0 <= j < n && j != i ==> #[trigger] sources_of(self.iters@)[j] == sources_of(start)[j]);
            i = i + 1;
        }
        assert(self.sources() =~= advance(s0, k@));
        Ok(())
    }

    /// Skips keys whose winning value is a deletion marker and makes the
    /// next winning source current.
    fn settle(&mut self) -> (r: Result<(), LsmError>)
        requires
            all_inv(old(self).iters@),
        ensures
            final(self).merge_inv(),
            r is Ok ==> final(self).merge_remaining() == merged(old(self).sources()),
            min_src(old(self).sources()) < 0 || old(self).sources()[min_src(old(self).sources())][0].1.len()
                > 0 ==> r is Ok,
            all_reliable(old(self).iters@) ==> r is Ok && all_reliable(final(self).iters@),
            same_failures(final(self).iters@, old(self).iters@),
            r matches Err(e) ==> any_fails_with(old(self).iters@, e),
    {
        let ghost s0 = self.sources();
        loop
            invariant
                all_inv(self.iters@),
                s0 == sources_of(old(self).iters@),
                merged(self.sources()) == merged(s0),
                min_src(s0) < 0 || s0[min_src(s0)][0].1.len() > 0 ==> self.sources() == s0,
                all_reliable(old(self).iters@) ==> all_reliable(self.iters@),
                same_failures(self.iters@, old(self).iters@),
            decreases total_len(self.sources()),
        {
            match self.find_min() {
                None => {
                    assert(merged(self.sources()) =~= Seq::<EntryView>::empty());
                    self.current = None;
                    return Ok(());
                },
                Some(m) => {
                    proof {
                        lemma_min_src(self.sources(), self.sources().len() as int);
                    }
                    assert(self.iters@[m as int].inv());
                    if self.iters[m].value().len() == 0 {
                        let kr = self.iters[m].key();
                        let k = crate::codec::copy_range(kr, 0, kr.len());
                        assert(k@ =~= kr@);
                        let ghost s1 = self.sources();
                        proof {
                            lemma_advance_len(s1, k@, m as int);
                        }
                        assert(s1[m as int][0].1.len() == 0);
                        assert(merged(s1) == merged(advance(s1, s1[m as int][0].0)));
                        let ghost mid = self.iters@;
                        match self.advance_all(k.as_slice()) {
                            Ok(()) => {},
                            Err(e) => {
                                proof {
                                    lemma_same_failures(mid, old(self).iters@);
                                }
                                self.current = None;
                                return Err(e);
                            },
                        }
                    } else {
                        assert(self.sources()[m as int][0].1.len() > 0);
                        self.current = Some(m);
                        return Ok(());
                    }
                },
            }
        }
    }
}

impl<I: StorageIterator> StorageIterator for MergeIterator<I> {
    open spec fn inv(&self) -> bool {
        self.merge_inv()
    }

    open spec fn remaining(&self) -> Seq<EntryView> {
        self.merge_remaining()
    }

    open spec fn reliable(&self) -> bool {
        self.all_sources_reliable()
    }

    open spec fn fails_with(&self, e: LsmError) -> bool {
        self.source_fails_with(e)
    }

    fn key(&self) -> (r: &[u8]) {
        let m = self.current.unwrap();
        proof {
            self.lemma_current();
        }
        self.iters[m].key()
    }

    fn value(&self) -> (r: &[u8]) {
        let m = self.current.unwrap();
        proof {
            self.lemma_current();
        }
        self.iters[m].value()
    }

    fn is_valid(&self) -> (r: bool) {
        proof {
            if self.current is Some {
                self.lemma_current();
            }
        }
        self.current.is_some()
    }

    fn next(&mut self) -> (r: Result<(), LsmError>) {
        match self.current {
            None => Ok(()),
            Some(m) => {
                proof {
                    self.lemma_current();
                }
                let kr = self.iters[m].key();
                let k = crate::codec::copy_range(kr, 0, kr.len());
                assert(k@ =~= kr@);
                let ghost start = self.iters@;
                match self.advance_all(k.as_slice()) {
                    Ok(()) => {},
                    Err(e) => {
                        proof {
                            lemma_same_failures(self.iters@, start);
                        }
                        self.current = None;
                        return Err(e);
                    },
                }
                let ghost mid = self.iters@;
                let r = self.settle();
                proof {
                    lemma_same_failures(self.iters@, mid);
                    lemma_same_failures(mid, start);
                }
                r
            },
        }
    }
}

} // verus!
