use crate::hash::H256;
use vstd::bytes::{spec_u64_from_le_bytes, spec_u64_to_le_bytes, u64_from_le_bytes, u64_to_le_bytes};
use vstd::prelude::*;
use vstd::slice::slice_subrange;

verus! {

/// Eight little-endian bytes of `x`.
pub open spec fn le_u64(x: u64) -> Seq<u8> {
    spec_u64_to_le_bytes(x)
}

/// Appends the eight little-endian bytes of `x`.
pub fn push_u64(out: &mut Vec<u8>, x: u64)
    ensures
        final(out)@ == old(out)@ + le_u64(x),
        le_u64(x).len() == 8,
{
    proof {
        vstd::bytes::lemma_auto_spec_u64_to_from_le_bytes();
    }
    let b = u64_to_le_bytes(x);
    push_all(out, &b);
}

/// Appends the bytes of `b`.
pub fn push_all(out: &mut Vec<u8>, b: &[u8])
    ensures
        final(out)@ == old(out)@ + b@,
{
    let mut i: usize = 0;
    while i < b.len()
        invariant
            i <= b@.len(),
            out@ == old(out)@ + b@.take(i as int),
        decreases b@.len() - i,
    {
        out.push(b[i]);
        i = i + 1;
        assert(out@ =~= old(out)@ + b@.take(i as int));
    }
    assert(b@.take(b@.len() as int) =~= b@);
}

/// Appends the 32 bytes of `h`.
pub fn push_hash(out: &mut Vec<u8>, h: &H256)
    ensures
        final(out)@ == old(out)@ + h.0@,
{
    let v = h.to_vec();
    push_all(out, v.as_slice());
}

/// The number stored little-endian at `at .. at + 8`.
pub fn read_u64(b: &[u8], at: usize) -> (r: u64)
    requires
        at + 8 <= b@.len(),
    ensures
        le_u64(r) == b@.subrange(at as int, at + 8),
{
    proof {
        vstd::bytes::lemma_auto_spec_u64_to_from_le_bytes();
    }
    let n = b.len();
    assert(at + 8 <= n);
    let s = slice_subrange(b, at, at + 8);
    let r = u64_from_le_bytes(s);
    assert(spec_u64_to_le_bytes(spec_u64_from_le_bytes(s@)) == s@);
    r
}

/// The hash stored at `at .. at + 32`.
pub fn read_hash(b: &[u8], at: usize) -> (r: H256)
    requires
        at + 32 <= b@.len(),
    ensures
        r.0@ == b@.subrange(at as int, at + 32),
{
    let n = b.len();
    assert(at + 32 <= n);
    let s = slice_subrange(b, at, at + 32);
    H256::from_slice(s)
}

/// The bytes at `at .. at + len`.
pub fn read_bytes(b: &[u8], at: usize, len: usize) -> (r: Vec<u8>)
    requires
        at + len <= b@.len(),
    ensures
        r@ == b@.subrange(at as int, at + len),
{
    let n = b.len();
    assert(at + len <= n);
    let s = slice_subrange(b, at, at + len);
    let mut out: Vec<u8> = Vec::new();
    push_all(&mut out, s);
    assert(out@ =~= s@);
    out
}

/// Eight bytes decode to the one number that encodes to them.
pub proof fn lemma_le_u64_injective(x: u64, y: u64)
    requires
        le_u64(x) == le_u64(y),
    ensures
        x == y,
{
    vstd::bytes::lemma_auto_spec_u64_to_from_le_bytes();
    assert(spec_u64_from_le_bytes(spec_u64_to_le_bytes(x)) == x);
    assert(spec_u64_from_le_bytes(spec_u64_to_le_bytes(y)) == y);
}

} // verus!
