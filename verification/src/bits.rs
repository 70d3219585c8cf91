//! Bit vectors, as the crate `bit_vec` provides them.
//!
//! Nothing here is proved: each contract states what the method of `BitVec`
//! that it names does, as its source shows it.

use bit_vec::BitVec;
use vstd::prelude::*;

verus! {

/// `bit_vec::BitVec`, of which nothing is known here but what the
/// contracts below say of its bits.
#[verifier::external_type_specification]
#[verifier::external_body]
#[verifier::reject_recursive_types(B)]
pub struct ExBitVec<B>(BitVec<B>);

/// The bits that a bit vector holds, in order.
pub uninterp spec fn bits(v: BitVec<u32>) -> Seq<bool>;

/// `BitVec::from_elem`: `nbits` bits, each of them `bit`.
#[verifier::external_body]
pub(crate) fn bits_from_elem(nbits: usize, bit: bool) -> (v: BitVec<u32>)
    ensures
        bits(v) == Seq::new(nbits as nat, |i: int| bit),
{
    BitVec::from_elem(nbits, bit)
}

/// `BitVec::len`: the number of bits.
#[verifier::external_body]
pub(crate) fn bits_len(v: &BitVec<u32>) -> (n: usize)
    ensures
        n == bits(*v).len(),
{
    v.len()
}

/// `BitVec::none`: whether every bit is `false`.
#[verifier::external_body]
pub(crate) fn bits_none(v: &BitVec<u32>) -> (none: bool)
    ensures
        none == (forall|i: int| 0 <= i < bits(*v).len() ==> !bits(*v)[i]),
{
    v.none()
}

/// `BitVec::get`: bit `i`, or `None` where the vector has no bit `i`.
#[verifier::external_body]
pub(crate) fn bits_get(v: &BitVec<u32>, i: usize) -> (bit: Option<bool>)
    ensures
        bit == (if i < bits(*v).len() {
            Some(bits(*v)[i as int])
        } else {
            None
        }),
{
    v.get(i)
}

/// `BitVec::set`: bit `i` becomes `x`, and no other bit changes. The method
/// panics where the vector has no bit `i`.
#[verifier::external_body]
pub(crate) fn bits_set(v: &mut BitVec<u32>, i: usize, x: bool)
    requires
        i < bits(*old(v)).len(),
    ensures
        bits(*final(v)) == bits(*old(v)).update(i as int, x),
{
    v.set(i, x)
}

} // verus!
