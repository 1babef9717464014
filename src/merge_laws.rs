//! Laws of the merged stream, for sources whose keys are strictly ascending.

use vstd::prelude::*;
use crate::key::{key_lt, keys_ascending, lemma_key_lt_irreflexive, lemma_key_lt_total, lemma_key_lt_transitive, EntryView};
use crate::merge_iterator::{advance, lemma_min_src, merged, min_src, total_len};

verus! {

/// Every source has strictly ascending keys.
pub open spec fn sources_ascending(s: Seq<Seq<EntryView>>) -> bool {
    forall|i: int| 0 <= i < s.len() ==> keys_ascending(#[trigger] s[i])
}

/// Every entry of every source has a key above `k`.
pub open spec fn all_above(s: Seq<Seq<EntryView>>, k: Seq<u8>) -> bool {
    forall|i: int, q: int| 0 <= i < s.len() && 0 <= q < s[i].len() ==> key_lt(k, #[trigger] s[i][q].0)
}

/// No entry of source `j` has key `k`.
pub open spec fn lacks_key(src: Seq<EntryView>, k: Seq<u8>) -> bool {
    forall|q: int| 0 <= q < src.len() ==> #[trigger] src[q].0 != k
}

/// `e` is an entry of some source, and no source before it holds its key.
pub open spec fn from_lowest_source(s: Seq<Seq<EntryView>>, e: EntryView) -> bool {
    exists|i: int, q: int|
        {
            &&& 0 <= i < s.len()
            &&& 0 <= q < s[i].len()
            &&& #[trigger] s[i][q] == e
            &&& forall|j: int| 0 <= j < i ==> lacks_key(#[trigger] s[j], e.0)
        }
}

proof fn lemma_merged_unfold(s: Seq<Seq<EntryView>>)
    ensures
        min_src(s) < 0 ==> merged(s) == Seq::<EntryView>::empty(),
        min_src(s) >= 0 ==> merged(s) == if s[min_src(s)][0].1.len() == 0 {
            merged(advance(s, s[min_src(s)][0].0))
        } else {
            seq![s[min_src(s)][0]] + merged(advance(s, s[min_src(s)][0].0))
        },
{
}

/// An entry of an advanced source is an entry of the same source, at the
/// same place or one further.
proof fn lemma_advance_entry(s: Seq<Seq<EntryView>>, k: Seq<u8>, i: int, q: int)
    requires
        0 <= i < s.len(),
        0 <= q < advance(s, k)[i].len(),
    ensures
        advance(s, k)[i][q] == s[i][q] || (advance(s, k)[i][q] == s[i][q + 1] && s[i][0].0 == k
            && q + 1 < s[i].len()),
{
}

proof fn lemma_advance_ascending(s: Seq<Seq<EntryView>>, k: Seq<u8>)
    requires
        sources_ascending(s),
    ensures
        sources_ascending(advance(s, k)),
{
    let a = advance(s, k);
    assert forall|i: int| 0 <= i < a.len() implies keys_ascending(#[trigger] a[i]) by {
        if s[i].len() > 0 && s[i][0].0 == k {
            assert forall|x: int, y: int| 0 <= x < y < a[i].len() implies key_lt(
                #[trigger] a[i][x].0,
                #[trigger] a[i][y].0,
            ) by {
                assert(a[i][x] == s[i][x + 1]);
                assert(a[i][y] == s[i][y + 1]);
            }
        }
    }
}

/// Past the smallest head key, every remaining entry lies above it.
proof fn lemma_advance_above(s: Seq<Seq<EntryView>>)
    requires
        sources_ascending(s),
        min_src(s) >= 0,
    ensures
        all_above(advance(s, s[min_src(s)][0].0), s[min_src(s)][0].0),
{
    lemma_min_src(s, s.len() as int);
    let m = min_src(s);
    let k = s[m][0].0;
    let a = advance(s, k);
    assert forall|i: int, q: int| 0 <= i < a.len() && 0 <= q < a[i].len() implies key_lt(
        k,
        #[trigger] a[i][q].0,
    ) by {
        assert(keys_ascending(s[i]));
        if s[i][0].0 == k {
            assert(a[i][q] == s[i][q + 1]);
        } else {
            if i > m {
                lemma_key_lt_total(s[i][0].0, k);
            }
            assert(key_lt(k, s[i][0].0));
            if q > 0 {
                lemma_key_lt_transitive(k, s[i][0].0, s[i][q].0);
            }
        }
    }
}

proof fn lemma_advance_all_above(s: Seq<Seq<EntryView>>, k: Seq<u8>, k2: Seq<u8>)
    requires
        all_above(s, k),
    ensures
        all_above(advance(s, k2), k),
{
    let a = advance(s, k2);
    assert forall|i: int, q: int| 0 <= i < a.len() && 0 <= q < a[i].len() implies key_lt(
        k,
        #[trigger] a[i][q].0,
    ) by {
        lemma_advance_entry(s, k2, i, q);
    }
}

/// Every key of the merged stream lies above a bound that all sources
/// lie above.
proof fn lemma_merged_above(s: Seq<Seq<EntryView>>, k: Seq<u8>)
    requires
        all_above(s, k),
    ensures
        forall|p: int| 0 <= p < merged(s).len() ==> key_lt(k, #[trigger] merged(s)[p].0),
    decreases total_len(s),
{
    lemma_merged_unfold(s);
    let m = min_src(s);
    if m >= 0 {
        lemma_min_src(s, s.len() as int);
        let e = s[m][0];
        crate::merge_iterator::lemma_advance_len(s, e.0, m);
        lemma_advance_all_above(s, k, e.0);
        lemma_merged_above(advance(s, e.0), k);
    }
}

/// Every value the merged stream emits is non-empty.
pub proof fn lemma_merged_values_nonempty(s: Seq<Seq<EntryView>>)
    ensures
        forall|p: int| 0 <= p < merged(s).len() ==> (#[trigger] merged(s)[p]).1.len() > 0,
    decreases total_len(s),
{
    lemma_merged_unfold(s);
    let m = min_src(s);
    if m >= 0 {
        lemma_min_src(s, s.len() as int);
        let e = s[m][0];
        crate::merge_iterator::lemma_advance_len(s, e.0, m);
        lemma_merged_values_nonempty(advance(s, e.0));
        if e.1.len() > 0 {
            let r = merged(advance(s, e.0));
            assert forall|p: int| 0 <= p < merged(s).len() implies (#[trigger] merged(s)[p]).1.len() > 0 by {
                if p > 0 {
                    assert(merged(s)[p] == r[p - 1]);
                }
            }
        }
    }
}

/// The merged stream of sources with strictly ascending keys has strictly
/// ascending keys: its keys never go down, and no key comes out twice.
pub proof fn lemma_merged_ascending(s: Seq<Seq<EntryView>>)
    requires
        sources_ascending(s),
    ensures
        keys_ascending(merged(s)),
    decreases total_len(s),
{
    lemma_merged_unfold(s);
    let m = min_src(s);
    if m >= 0 {
        lemma_min_src(s, s.len() as int);
        let e = s[m][0];
        let a = advance(s, e.0);
        crate::merge_iterator::lemma_advance_len(s, e.0, m);
        lemma_advance_ascending(s, e.0);
        lemma_merged_ascending(a);
        if e.1.len() > 0 {
            lemma_advance_above(s);
            lemma_merged_above(a, e.0);
            let r = merged(a);
            let out = merged(s);
            assert forall|x: int, y: int| 0 <= x < y < out.len() implies key_lt(
                #[trigger] out[x].0,
                #[trigger] out[y].0,
            ) by {
                assert(out[y] == r[y - 1]);
                if x > 0 {
                    assert(out[x] == r[x - 1]);
                }
            }
        }
    }
}

/// Where a key occurs in several sources, the merged stream carries the
/// entry of the lowest-index source that holds it.
pub proof fn lemma_merged_priority(s: Seq<Seq<EntryView>>)
    requires
        sources_ascending(s),
    ensures
        forall|p: int| 0 <= p < merged(s).len() ==> from_lowest_source(s, #[trigger] merged(s)[p]),
    decreases total_len(s),
{
    lemma_merged_unfold(s);
    let m = min_src(s);
    if m >= 0 {
        lemma_min_src(s, s.len() as int);
        let e = s[m][0];
        let a = advance(s, e.0);
        let r = merged(a);
        let out = merged(s);
        crate::merge_iterator::lemma_advance_len(s, e.0, m);
        lemma_advance_ascending(s, e.0);
        lemma_merged_priority(a);
        lemma_advance_above(s);
        lemma_merged_above(a, e.0);
        let off: int = if e.1.len() > 0 { 1 } else { 0 };
        assert forall|p: int| 0 <= p < out.len() implies from_lowest_source(s, #[trigger] out[p]) by {
            if p < off {
                assert(out[p] == e);
                assert forall|j: int| 0 <= j < m implies lacks_key(#[trigger] s[j], e.0) by {
                    assert(keys_ascending(s[j]));
                    assert forall|q: int| 0 <= q < s[j].len() implies #[trigger] s[j][q].0 != e.0 by {
                        if q > 0 {
                            lemma_key_lt_transitive(e.0, s[j][0].0, s[j][q].0);
                        }
                        lemma_key_lt_irreflexive(e.0);
                    }
                }
                assert(s[m][0] == out[p]);
            } else {
                assert(out[p] == r[p - off]);
                assert(from_lowest_source(a, r[p - off]));
                let (i, q) = choose|i: int, q: int|
                    {
                        &&& 0 <= i < a.len()
                        &&& 0 <= q < a[i].len()
                        &&& #[trigger] a[i][q] == r[p - off]
                        &&& forall|j: int| 0 <= j < i ==> lacks_key(#[trigger] a[j], r[p - off].0)
                    };
                lemma_advance_entry(s, e.0, i, q);
                let k2 = out[p].0;
                assert(key_lt(e.0, k2));
                lemma_key_lt_irreflexive(e.0);
                assert forall|j: int| 0 <= j < i implies lacks_key(#[trigger] s[j], k2) by {
                    assert(lacks_key(a[j], k2));
                    assert forall|q2: int| 0 <= q2 < s[j].len() implies #[trigger] s[j][q2].0 != k2 by {
                        if s[j][0].0 == e.0 {
                            if q2 > 0 {
                                assert(s[j][q2] == a[j][q2 - 1]);
                            }
                        } else {
                            assert(s[j][q2] == a[j][q2]);
                        }
                    }
                }
                if a[i][q] == s[i][q] {
                    assert(s[i][q] == out[p]);
                } else {
                    assert(s[i][q + 1] == out[p]);
                }
            }
        }
    }
}

/// A key whose entry in the lowest-index source holding it has an empty
/// value (a deletion marker) does not occur in the merged stream.
pub proof fn lemma_merged_tombstone(s: Seq<Seq<EntryView>>, i: int, q: int)
    requires
        sources_ascending(s),
        0 <= i < s.len(),
        0 <= q < s[i].len(),
        s[i][q].1.len() == 0,
        forall|j: int| 0 <= j < i ==> lacks_key(#[trigger] s[j], s[i][q].0),
    ensures
        forall|p: int| 0 <= p < merged(s).len() ==> (#[trigger] merged(s)[p]).0 != s[i][q].0,
{
    lemma_merged_priority(s);
    lemma_merged_values_nonempty(s);
    let k = s[i][q].0;
    assert forall|p: int| 0 <= p < merged(s).len() implies (#[trigger] merged(s)[p]).0 != k by {
        if merged(s)[p].0 == k {
            assert(from_lowest_source(s, merged(s)[p]));
            let (i2, q2) = choose|i2: int, q2: int|
                {
                    &&& 0 <= i2 < s.len()
                    &&& 0 <= q2 < s[i2].len()
                    &&& #[trigger] s[i2][q2] == merged(s)[p]
                    &&& forall|j: int| 0 <= j < i2 ==> lacks_key(#[trigger] s[j], merged(s)[p].0)
                };
            if i2 < i {
                assert(lacks_key(s[i2], k));
                assert(s[i2][q2].0 == k);
            } else if i2 > i {
                assert(lacks_key(s[i], k));
            } else {
                assert(keys_ascending(s[i]));
                if q2 < q {
                    assert(key_lt(s[i][q2].0, s[i][q].0));
                    lemma_key_lt_irreflexive(k);
                } else if q2 > q {
                    assert(key_lt(s[i][q].0, s[i][q2].0));
                    lemma_key_lt_irreflexive(k);
                }
            }
        }
    }
}

/// Every live key comes out: where the lowest-index source that holds a
/// key has a non-empty value for it, that entry is in the merged stream.
pub proof fn lemma_merged_complete(s: Seq<Seq<EntryView>>, i: int, q: int)
    requires
        sources_ascending(s),
        0 <= i < s.len(),
        0 <= q < s[i].len(),
        s[i][q].1.len() > 0,
        forall|j: int| 0 <= j < i ==> lacks_key(#[trigger] s[j], s[i][q].0),
    ensures
        exists|p: int| 0 <= p < merged(s).len() && #[trigger] merged(s)[p] == s[i][q],
    decreases total_len(s),
{
    lemma_merged_unfold(s);
    lemma_min_src(s, s.len() as int);
    let m = min_src(s);
    let k = s[i][q].0;
    assert(s[i].len() > 0);
    assert(m >= 0);
    let e = s[m][0];
    assert(keys_ascending(s[i]));
    if k == e.0 {
        if q > 0 {
            assert(key_lt(s[i][0].0, k));
            if i != m {
                lemma_key_lt_total(s[i][0].0, e.0);
            }
            lemma_key_lt_irreflexive(k);
            crate::key::lemma_key_lt_asymmetric(s[i][0].0, e.0);
            assert(false);
        }
        if i > m {
            assert(lacks_key(s[m], k));
            assert(s[m][0].0 == k);
            assert(false);
        } else if i < m {
            assert(key_lt(e.0, s[i][0].0));
            lemma_key_lt_irreflexive(k);
            assert(false);
        }
        assert(merged(s)[0] == s[i][q]);
    } else {
        let a = advance(s, e.0);
        crate::merge_iterator::lemma_advance_len(s, e.0, m);
        lemma_advance_ascending(s, e.0);
        let q2 = if s[i][0].0 == e.0 { q - 1 } else { q };
        assert(a[i][q2] == s[i][q]);
        assert forall|j: int| 0 <= j < i implies lacks_key(#[trigger] a[j], k) by {
            assert(lacks_key(s[j], k));
            assert forall|x: int| 0 <= x < a[j].len() implies #[trigger] a[j][x].0 != k by {
                lemma_advance_entry(s, e.0, j, x);
            }
        }
        lemma_merged_complete(a, i, q2);
        let p2 = choose|p: int| 0 <= p < merged(a).len() && #[trigger] merged(a)[p] == a[i][q2];
        if e.1.len() > 0 {
            assert(merged(s)[p2 + 1] == merged(a)[p2]);
        } else {
            assert(merged(s)[p2] == merged(a)[p2]);
        }
    }
}

} // verus!
