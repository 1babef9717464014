//! Big-endian integers and the key/value record layout shared by blocks and
//! block-meta sections.

use vstd::prelude::*;

verus! {

/// The big-endian `u16` stored at `d[i..i + 2]`.
pub open spec fn be16(d: Seq<u8>, i: int) -> int {
    d[i] as int * 256 + d[i + 1] as int
}

/// The big-endian `u32` stored at `d[i..i + 4]`.
pub open spec fn be32(d: Seq<u8>, i: int) -> int {
    be16(d, i) * 65536 + be16(d, i + 2)
}

/// The two big-endian bytes of `x`.
pub open spec fn u16_bytes(x: int) -> Seq<u8> {
    seq![(x / 256) as u8, (x % 256) as u8]
}

/// The four big-endian bytes of `x`.
pub open spec fn u32_bytes(x: int) -> Seq<u8> {
    u16_bytes(x / 65536) + u16_bytes(x % 65536)
}

/// A record: `u16 key_len | key | u16 value_len | value`.
pub open spec fn record_bytes(k: Seq<u8>, v: Seq<u8>) -> Seq<u8> {
    u16_bytes(k.len() as int) + k + u16_bytes(v.len() as int) + v
}

/// Whether a whole record starts at `o` and ends within `d`.
pub open spec fn record_fits(d: Seq<u8>, o: int) -> bool {
    &&& 0 <= o
    &&& o + 4 <= d.len()
    &&& o + 4 + be16(d, o) <= d.len()
    &&& record_end(d, o) <= d.len()
}

pub open spec fn record_end(d: Seq<u8>, o: int) -> int {
    o + 4 + be16(d, o) + be16(d, o + 2 + be16(d, o))
}

/// The key of the record at `o`.
pub open spec fn record_key(d: Seq<u8>, o: int) -> Seq<u8> {
    d.subrange(o + 2, o + 2 + be16(d, o))
}

/// The value of the record at `o`.
pub open spec fn record_value(d: Seq<u8>, o: int) -> Seq<u8> {
    d.subrange(o + 4 + be16(d, o), record_end(d, o))
}

pub proof fn lemma_u16_bytes(x: int)
    requires
        0 <= x < 65536,
    ensures
        u16_bytes(x).len() == 2,
        be16(u16_bytes(x), 0) == x,
{
}

pub proof fn lemma_u32_bytes(x: int)
    requires
        0 <= x < 0x1_0000_0000,
    ensures
        u32_bytes(x).len() == 4,
        be32(u32_bytes(x), 0) == x,
{
    lemma_u16_bytes(x / 65536);
    lemma_u16_bytes(x % 65536);
    let b = u32_bytes(x);
    assert(be16(b, 0) == x / 65536);
    assert(be16(b, 2) == x % 65536);
}

/// A record appended at the end of `d` reads back as written; what lay
/// before it is untouched.
pub proof fn lemma_record_append(d: Seq<u8>, k: Seq<u8>, v: Seq<u8>)
    requires
        k.len() < 65536,
        v.len() < 65536,
    ensures
        ({
            let e = d + record_bytes(k, v);
            let o = d.len() as int;
            &&& record_fits(e, o)
            &&& record_key(e, o) == k
            &&& record_value(e, o) == v
            &&& record_end(e, o) == e.len()
        }),
{
    let e = d + record_bytes(k, v);
    let o = d.len() as int;
    lemma_u16_bytes(k.len() as int);
    lemma_u16_bytes(v.len() as int);
    assert(e[o] == u16_bytes(k.len() as int)[0]);
    assert(e[o + 1] == u16_bytes(k.len() as int)[1]);
    assert(be16(e, o) == k.len());
    let p = o + 2 + k.len();
    assert(e[p] == u16_bytes(v.len() as int)[0]);
    assert(e[p + 1] == u16_bytes(v.len() as int)[1]);
    assert(be16(e, p) == v.len());
    assert(record_key(e, o) =~= k);
    assert(record_value(e, o) =~= v);
}

/// A record that fits in `d` reads the same in any extension of `d`.
pub proof fn lemma_record_extend(d: Seq<u8>, x: Seq<u8>, o: int)
    requires
        record_fits(d, o),
    ensures
        record_fits(d + x, o),
        record_key(d + x, o) == record_key(d, o),
        record_value(d + x, o) == record_value(d, o),
        record_end(d + x, o) == record_end(d, o),
{
    let e = d + x;
    assert(be16(e, o) == be16(d, o));
    assert(be16(e, o + 2 + be16(d, o)) == be16(d, o + 2 + be16(d, o)));
    assert(record_key(e, o) =~= record_key(d, o));
    assert(record_value(e, o) =~= record_value(d, o));
}

/// Appends `x` to `buf` as two big-endian bytes.
pub fn put_u16(buf: &mut Vec<u8>, x: u16)
    ensures
        final(buf)@ == old(buf)@ + u16_bytes(x as int),
{
    buf.push((x / 256) as u8);
    buf.push((x % 256) as u8);
    assert(final(buf)@ =~= old(buf)@ + u16_bytes(x as int));
}

/// Appends `x` to `buf` as four big-endian bytes.
pub fn put_u32(buf: &mut Vec<u8>, x: u32)
    ensures
        final(buf)@ == old(buf)@ + u32_bytes(x as int),
{
    put_u16(buf, (x / 65536) as u16);
    put_u16(buf, (x % 65536) as u16);
    assert(final(buf)@ =~= old(buf)@ + u32_bytes(x as int));
}

/// Reads the big-endian `u16` at `d[i..i + 2]`.
pub fn get_u16(d: &[u8], i: usize) -> (r: u16)
    requires
        i + 2 <= d@.len(),
    ensures
        r as int == be16(d@, i as int),
{
    (d[i] as u16) * 256 + d[i + 1] as u16
}

/// Reads the big-endian `u32` at `d[i..i + 4]`.
pub fn get_u32(d: &[u8], i: usize) -> (r: u32)
    requires
        i + 4 <= d@.len(),
    ensures
        r as int == be32(d@, i as int),
{
    let n: usize = d.len();
    assert(i + 2 < n);
    let hi = get_u16(d, i) as u32;
    let lo = get_u16(d, i + 2) as u32;
    hi * 65536 + lo
}

/// Appends all of `s` to `buf`.
pub fn put_slice(buf: &mut Vec<u8>, s: &[u8])
    ensures
        final(buf)@ == old(buf)@ + s@,
{
    let mut i: usize = 0;
    while i < s.len()
        invariant
            i <= s@.len(),
            buf@ == old(buf)@ + s@.subrange(0, i as int),
        decreases s@.len() - i,
    {
        buf.push(s[i]);
        i = i + 1;
        assert(buf@ =~= old(buf)@ + s@.subrange(0, i as int));
    }
    assert(s@.subrange(0, s@.len() as int) =~= s@);
}

/// Copies `d[lo..hi]` into a new vector.
pub fn copy_range(d: &[u8], lo: usize, hi: usize) -> (r: Vec<u8>)
    requires
        lo <= hi <= d@.len(),
    ensures
        r@ == d@.subrange(lo as int, hi as int),
{
    let mut r: Vec<u8> = Vec::new();
    put_slice(&mut r, vstd::slice::slice_subrange(d, lo, hi));
    assert(r@ =~= d@.subrange(lo as int, hi as int));
    r
}

} // verus!
