//! Small operations on byte vectors.

use vstd::prelude::*;

verus! {

/// Appends the bytes `lo..hi` of `s` to `v`.
pub fn append_part(v: &mut Vec<u8>, s: &[u8], lo: usize, hi: usize)
    requires
        lo <= hi <= s@.len(),
    ensures
        final(v)@ == old(v)@ + s@.subrange(lo as int, hi as int),
{
    let part = vstd::slice::slice_subrange(s, lo, hi);
    v.extend_from_slice(part);
    assert(v@ =~= old(v)@ + s@.subrange(lo as int, hi as int));
}

/// Removes the first `n` bytes of `v`.
pub fn drop_front(v: &mut Vec<u8>, n: usize)
    requires
        n <= old(v)@.len(),
    ensures
        final(v)@ == old(v)@.skip(n as int),
{
    let rest = v.split_off(n);
    *v = rest;
}

/// A new vector with the bytes `lo..hi` of `s`.
pub fn copy_part(s: &[u8], lo: usize, hi: usize) -> (v: Vec<u8>)
    requires
        lo <= hi <= s@.len(),
    ensures
        v@ == s@.subrange(lo as int, hi as int),
{
    let mut v: Vec<u8> = Vec::new();
    append_part(&mut v, s, lo, hi);
    assert(v@ =~= s@.subrange(lo as int, hi as int));
    v
}

} // verus!
