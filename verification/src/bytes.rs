//! Small verified byte-sequence helpers shared by the codecs.

use vstd::prelude::*;

verus! {

/// Whether `e` is a prefix of `s`.
pub open spec fn is_prefix_of(e: Seq<u8>, s: Seq<u8>) -> bool {
    e.len() <= s.len() && s.subrange(0, e.len() as int) == e
}

/// A fresh vector holding the same bytes as `src`.
pub fn copy_bytes(src: &[u8]) -> (out: Vec<u8>)
    ensures
        out@ == src@,
{
    let mut out: Vec<u8> = Vec::new();
    let mut i: usize = 0;
    while i < src.len()
        invariant
            i <= src@.len(),
            out@ == src@.subrange(0, i as int),
        decreases src.len() - i,
    {
        out.push(src[i]);
        i += 1;
    }
    assert(src@.subrange(0, src@.len() as int) == src@);
    out
}

/// Append the bytes of `src` to `out`.
pub fn append_bytes(out: &mut Vec<u8>, src: &[u8])
    ensures
        final(out)@ == old(out)@ + src@,
{
    let mut i: usize = 0;
    while i < src.len()
        invariant
            i <= src@.len(),
            out@ == old(out)@ + src@.subrange(0, i as int),
        decreases src.len() - i,
    {
        out.push(src[i]);
        i += 1;
    }
    assert(src@.subrange(0, src@.len() as int) == src@);
}

/// Whether `entry` occurs in `data` starting at `pos`.
pub fn matches_at(data: &[u8], pos: usize, entry: &[u8]) -> (r: bool)
    requires
        pos <= data@.len(),
    ensures
        r == is_prefix_of(entry@, data@.skip(pos as int)),
{
    if entry.len() > data.len() - pos {
        return false;
    }
    let mut i: usize = 0;
    while i < entry.len()
        invariant
            i <= entry@.len(),
            pos + entry@.len() <= data@.len(),
            forall|j: int| 0 <= j < i ==> data@[pos + j] == entry@[j],
        decreases entry.len() - i,
    {
        assert(pos + i < data.len());
        if data[pos + i] != entry[i] {
            assert(data@.skip(pos as int).subrange(0, entry@.len() as int)[i as int] != entry@[i as int]);
            return false;
        }
        i += 1;
    }
    assert(data@.skip(pos as int).subrange(0, entry@.len() as int) =~= entry@);
    true
}

/// Whether two byte slices hold the same bytes.
pub fn bytes_eq(a: &[u8], b: &[u8]) -> (r: bool)
    ensures
        r == (a@ == b@),
{
    if a.len() != b.len() {
        return false;
    }
    let mut i: usize = 0;
    while i < a.len()
        invariant
            i <= a@.len(),
            a@.len() == b@.len(),
            forall|j: int| 0 <= j < i ==> a@[j] == b@[j],
        decreases a.len() - i,
    {
        if a[i] != b[i] {
            return false;
        }
        i += 1;
    }
    assert(a@ =~= b@);
    true
}

} // verus!
