//! Big-endian 32-bit words over byte buffers: the executable container and
//! the instruction encoding are both stated bit-exactly in this form.

use vstd::prelude::*;

verus! {

/// The big-endian word at `off`.
pub open spec fn spec_be32(b: Seq<u8>, off: int) -> u32 {
    ((b[off] as u32) << 24) | ((b[off + 1] as u32) << 16) | ((b[off + 2] as u32) << 8) | (b[off
        + 3] as u32)
}

/// The four big-endian bytes of `w`, most significant first.
pub open spec fn spec_be32_bytes(w: u32) -> Seq<u8> {
    seq![(w >> 24) as u8, (w >> 16) as u8, (w >> 8) as u8, w as u8]
}

pub fn read_be32(v: &Vec<u8>, off: usize) -> (r: u32)
    requires
        off + 4 <= v@.len(),
    ensures
        r == spec_be32(v@, off as int),
{
    let _bound = v.len();
    ((v[off] as u32) << 24u32) | ((v[off + 1] as u32) << 16u32) | ((v[off + 2] as u32) << 8u32) | (
    v[off + 3] as u32)
}

/// Appends the four big-endian bytes of `w`.
pub fn push_be32(v: &mut Vec<u8>, w: u32)
    ensures
        final(v)@ == old(v)@ + spec_be32_bytes(w),
{
    v.push((w >> 24u32) as u8);
    v.push((w >> 16u32) as u8);
    v.push((w >> 8u32) as u8);
    v.push(w as u8);
    proof {
        assert(v@ =~= old(v)@ + spec_be32_bytes(w));
    }
}

/// `b` with the four bytes at `off` replaced by the big-endian `w`.
pub open spec fn spec_store_be32(b: Seq<u8>, off: int, w: u32) -> Seq<u8> {
    b.update(off, (w >> 24) as u8).update(off + 1, (w >> 16) as u8).update(
        off + 2,
        (w >> 8) as u8,
    ).update(off + 3, w as u8)
}

/// Overwrites the four bytes at `off` with the big-endian `w`.
pub fn store_be32(v: &mut Vec<u8>, off: usize, w: u32)
    requires
        off + 4 <= old(v)@.len(),
    ensures
        final(v)@ == spec_store_be32(old(v)@, off as int, w),
{
    let _bound = v.len();
    let x0: u8 = (w >> 24u32) as u8;
    let x1: u8 = (w >> 16u32) as u8;
    let x2: u8 = (w >> 8u32) as u8;
    let x3: u8 = w as u8;
    let p0 = vstd::std_specs::vec::vec_index_mut(v, off);
    *p0 = x0;
    let p1 = vstd::std_specs::vec::vec_index_mut(v, off + 1);
    *p1 = x1;
    let p2 = vstd::std_specs::vec::vec_index_mut(v, off + 2);
    *p2 = x2;
    let p3 = vstd::std_specs::vec::vec_index_mut(v, off + 3);
    *p3 = x3;
}

/// `b` with the two bytes at `off` replaced by the big-endian low half of
/// `w`.
pub open spec fn spec_store_be16(b: Seq<u8>, off: int, w: u32) -> Seq<u8> {
    b.update(off, (w >> 8) as u8).update(off + 1, w as u8)
}

/// Overwrites the two bytes at `off` with the big-endian low half of `w`.
pub fn store_be16(v: &mut Vec<u8>, off: usize, w: u32)
    requires
        off + 2 <= old(v)@.len(),
    ensures
        final(v)@ == spec_store_be16(old(v)@, off as int, w),
{
    let _bound = v.len();
    let x0: u8 = (w >> 8u32) as u8;
    let x1: u8 = w as u8;
    let p0 = vstd::std_specs::vec::vec_index_mut(v, off);
    *p0 = x0;
    let p1 = vstd::std_specs::vec::vec_index_mut(v, off + 1);
    *p1 = x1;
}

/// Appends `count` zero bytes.
pub fn push_zeros(v: &mut Vec<u8>, count: usize)
    ensures
        final(v)@ == old(v)@ + Seq::new(count as nat, |i: int| 0u8),
{
    let mut i: usize = 0;
    while i < count
        invariant
            i <= count,
            v@ == old(v)@ + Seq::new(i as nat, |j: int| 0u8),
        decreases count - i,
    {
        v.push(0u8);
        proof {
            assert(v@ =~= old(v)@ + Seq::new((i + 1) as nat, |j: int| 0u8));
        }
        i += 1;
    }
}

/// Appends a copy of `src`.
pub fn push_bytes(v: &mut Vec<u8>, src: &Vec<u8>)
    ensures
        final(v)@ == old(v)@ + src@,
{
    let mut i: usize = 0;
    while i < src.len()
        invariant
            i <= src@.len(),
            v@ == old(v)@ + src@.subrange(0, i as int),
        decreases src@.len() - i,
    {
        v.push(src[i]);
        proof {
            assert(v@ =~= old(v)@ + src@.subrange(0, i + 1 as int));
        }
        i += 1;
    }
    proof {
        assert(old(v)@ + src@.subrange(0, src@.len() as int) =~= old(v)@ + src@);
    }
}

/// A copy of `v[lo..hi]`.
pub fn slice_bytes(v: &Vec<u8>, lo: usize, hi: usize) -> (r: Vec<u8>)
    requires
        lo <= hi <= v@.len(),
    ensures
        r@ == v@.subrange(lo as int, hi as int),
{
    let mut r: Vec<u8> = Vec::new();
    let mut i: usize = lo;
    while i < hi
        invariant
            lo <= i <= hi <= v@.len(),
            r@ == v@.subrange(lo as int, i as int),
        decreases hi - i,
    {
        r.push(v[i]);
        proof {
            assert(r@ =~= v@.subrange(lo as int, i + 1 as int));
        }
        i += 1;
    }
    r
}

} // verus!
