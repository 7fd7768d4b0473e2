//! Big-endian encoding of 32-bit integers inside byte buffers.
use vstd::prelude::*;

verus! {

/// The big-endian `u32` stored in `s` at `off .. off + 4`.
pub open spec fn be_u32(s: Seq<u8>, off: int) -> u32 {
    (s[off] as int * 16777216 + s[off + 1] as int * 65536 + s[off + 2] as int * 256
        + s[off + 3] as int) as u32
}

/// The four big-endian bytes of `v`.
pub open spec fn be_bytes(v: u32) -> Seq<u8> {
    seq![(v / 16777216) as u8, ((v / 65536) % 256) as u8, ((v / 256) % 256) as u8, (v % 256) as u8]
}

/// `s` with the bytes of `b` written at `off`.
pub open spec fn put_bytes(s: Seq<u8>, off: int, b: Seq<u8>) -> Seq<u8> {
    Seq::new(s.len(), |i: int| if off <= i < off + b.len() { b[i - off] } else { s[i] })
}

/// `s` with the big-endian bytes of `v` written at `off`.
pub open spec fn put_u32(s: Seq<u8>, off: int, v: u32) -> Seq<u8> {
    put_bytes(s, off, be_bytes(v))
}

/// Reading back an encoded `u32` gives the value.
pub proof fn lemma_be_roundtrip(v: u32)
    ensures
        be_u32(be_bytes(v), 0) == v,
{
}

/// A `u32` written at `off` reads back at `off`, and bytes outside `off .. off + 4` are kept.
pub proof fn lemma_put_u32(s: Seq<u8>, off: int, v: u32)
    requires
        0 <= off,
        off + 4 <= s.len(),
    ensures
        be_u32(put_u32(s, off, v), off) == v,
        put_u32(s, off, v).len() == s.len(),
        forall|i: int| 0 <= i < s.len() && !(off <= i < off + 4) ==> put_u32(s, off, v)[i] == s[i],
{
    lemma_be_roundtrip(v);
    let t = put_u32(s, off, v);
    assert(t[off] == be_bytes(v)[0]);
    assert(t[off + 1] == be_bytes(v)[1]);
    assert(t[off + 2] == be_bytes(v)[2]);
    assert(t[off + 3] == be_bytes(v)[3]);
}

/// Reads the big-endian `u32` at `off`.
pub fn read_u32(s: &Vec<u8>, off: usize) -> (r: u32)
    requires
        off + 4 <= s.len(),
    ensures
        r == be_u32(s@, off as int),
{
    let b0 = s[off] as u32;
    let b1 = s[off + 1] as u32;
    let b2 = s[off + 2] as u32;
    let b3 = s[off + 3] as u32;
    b0 * 16777216 + b1 * 65536 + b2 * 256 + b3
}

/// Writes the big-endian bytes of `v` at `off`.
pub fn write_u32(s: &mut Vec<u8>, off: usize, v: u32)
    requires
        off + 4 <= old(s).len(),
    ensures
        final(s)@ == put_u32(old(s)@, off as int, v),
{
    s.set(off, (v / 16777216) as u8);
    s.set(off + 1, ((v / 65536) % 256) as u8);
    s.set(off + 2, ((v / 256) % 256) as u8);
    s.set(off + 3, (v % 256) as u8);
    assert(s@ =~= put_u32(old(s)@, off as int, v));
}

} // verus!

verus! {

/// A fresh copy of `s[start .. start + len]`.
pub fn copy_out(s: &Vec<u8>, start: usize, len: usize) -> (r: Vec<u8>)
    requires
        start + len <= s.len(),
    ensures
        r@ == s@.subrange(start as int, start + len),
{
    let mut out: Vec<u8> = Vec::new();
    let mut i: usize = 0;
    while i < len
        invariant
            i <= len,
            start + len <= s.len(),
            out@ == s@.subrange(start as int, start + i),
        decreases len - i,
    {
        out.push(s[start + i]);
        i = i + 1;
        assert(out@ =~= s@.subrange(start as int, start + i));
    }
    out
}

/// Writes the bytes of `b` at `off`.
pub fn write_bytes(s: &mut Vec<u8>, off: usize, b: &[u8])
    requires
        off + b@.len() <= old(s).len(),
    ensures
        final(s)@ == put_bytes(old(s)@, off as int, b@),
{
    let mut i: usize = 0;
    while i < b.len()
        invariant
            i <= b@.len(),
            off + b@.len() <= s.len(),
            s@.len() == old(s)@.len(),
            forall|j: int| 0 <= j < s@.len() ==> #[trigger] s@[j] == (if off <= j < off + i { b@[j - off] } else { old(s)@[j] }),
        decreases b@.len() - i,
    {
        s.set(off + i, b[i]);
        i = i + 1;
    }
    assert(s@ =~= put_bytes(old(s)@, off as int, b@));
}

/// Copies `s[from .. from + len]` onto `s[to .. to + len]`, as `copy_within` does.
pub fn copy_within(s: &mut Vec<u8>, from: usize, to: usize, len: usize)
    requires
        from + len <= old(s).len(),
        to + len <= old(s).len(),
    ensures
        final(s)@ == put_bytes(old(s)@, to as int, old(s)@.subrange(from as int, from + len)),
{
    let tmp = copy_out(s, from, len);
    write_bytes(s, to, tmp.as_slice());
}

} // verus!

verus! {

/// A fresh copy of `s[start .. end]`.
pub fn copy_out_slice(s: &[u8], start: usize, end: usize) -> (r: Vec<u8>)
    requires
        start <= end <= s@.len(),
    ensures
        r@ == s@.subrange(start as int, end as int),
{
    let mut out: Vec<u8> = Vec::new();
    let mut i: usize = start;
    while i < end
        invariant
            start <= i <= end <= s@.len(),
            out@ == s@.subrange(start as int, i as int),
        decreases end - i,
    {
        out.push(s[i]);
        i = i + 1;
        assert(out@ =~= s@.subrange(start as int, i as int));
    }
    out
}

} // verus!
