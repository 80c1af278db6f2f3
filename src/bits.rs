//! Bit-vectors of the `bit_vec` crate, seen as sequences of booleans.

use vstd::prelude::*;

verus! {

#[verifier::external_type_specification]
#[verifier::external_body]
#[verifier::reject_recursive_types(B)]
pub struct ExBitVec<B>(bit_vec::BitVec<B>);

/// The bits held by a bit-vector, first bit first.
pub uninterp spec fn bits_of(v: bit_vec::BitVec) -> Seq<bool>;

/// Relies on `BitVec::new`: the new vector holds no bits.
#[verifier::external_body]
pub(crate) fn bv_new() -> (r: bit_vec::BitVec)
    ensures
        bits_of(r) == Seq::<bool>::empty(),
{
    bit_vec::BitVec::new()
}

/// Relies on `BitVec::len`: the number of bits held.
#[verifier::external_body]
pub(crate) fn bv_len(v: &bit_vec::BitVec) -> (r: usize)
    ensures
        r == bits_of(*v).len(),
{
    v.len()
}

/// Relies on `BitVec::get`: the bit at an index below the length.
#[verifier::external_body]
pub(crate) fn bv_get(v: &bit_vec::BitVec, i: usize) -> (r: bool)
    requires
        i < bits_of(*v).len(),
    ensures
        r == bits_of(*v)[i as int],
{
    v.get(i).unwrap()
}

/// Relies on `BitVec::set`: overwrites one bit, which must lie below the length.
#[verifier::external_body]
pub(crate) fn bv_set(v: &mut bit_vec::BitVec, i: usize, x: bool)
    requires
        i < bits_of(*old(v)).len(),
    ensures
        bits_of(*final(v)) == bits_of(*old(v)).update(i as int, x),
{
    v.set(i, x)
}

/// Relies on `BitVec::push`: appends one bit.
#[verifier::external_body]
pub(crate) fn bv_push(v: &mut bit_vec::BitVec, x: bool)
    requires
        bits_of(*old(v)).len() < usize::MAX,
    ensures
        bits_of(*final(v)) == bits_of(*old(v)).push(x),
{
    v.push(x)
}

/// Relies on `Clone for BitVec`: the copy holds the same bits.
#[verifier::external_body]
pub(crate) fn bv_clone(v: &bit_vec::BitVec) -> (r: bit_vec::BitVec)
    ensures
        bits_of(r) == bits_of(*v),
{
    v.clone()
}

/// The number of bits a bit-vector holds.
pub fn bit_len(v: &bit_vec::BitVec) -> (r: usize)
    ensures
        r == bits_of(*v).len(),
{
    bv_len(v)
}

/// A bit-vector holding exactly the given bits.
pub fn from_bools(b: &Vec<bool>) -> (r: bit_vec::BitVec)
    ensures
        bits_of(r) == b@,
{
    let mut r = bv_new();
    let mut i: usize = 0;
    while i < b.len()
        invariant
            i <= b.len(),
            bits_of(r) == b@.subrange(0, i as int),
        decreases b.len() - i,
    {
        bv_push(&mut r, b[i]);
        i = i + 1;
        assert(bits_of(r) =~= b@.subrange(0, i as int));
    }
    assert(b@.subrange(0, b.len() as int) =~= b@);
    r
}

/// The bits of a bit-vector, first bit first.
pub fn to_bools(v: &bit_vec::BitVec) -> (r: Vec<bool>)
    ensures
        r@ == bits_of(*v),
{
    let n = bv_len(v);
    let mut r: Vec<bool> = Vec::new();
    let mut i: usize = 0;
    while i < n
        invariant
            n == bits_of(*v).len(),
            i <= n,
            r@ == bits_of(*v).subrange(0, i as int),
        decreases n - i,
    {
        r.push(bv_get(v, i));
        i = i + 1;
        assert(r@ =~= bits_of(*v).subrange(0, i as int));
    }
    assert(bits_of(*v).subrange(0, n as int) =~= bits_of(*v));
    r
}

} // verus!
