//! The packed bit storage behind a grid, provided by the `bit_vec` crate.
//!
//! Nothing in this file is proved: it states what the crate's `BitVec`
//! does, over the sequence of bits that a vector holds.

use bit_vec::BitVec;
use vstd::prelude::*;

verus! {

#[verifier::external_type_specification]
#[verifier::external_body]
#[verifier::reject_recursive_types(B)]
pub struct ExBitVec<B>(BitVec<B>);

/// The bits that a vector holds, in index order.
pub uninterp spec fn bit_contents(bits: BitVec) -> Seq<bool>;

/// `BitVec::from_elem`: a vector of `len` bits, each equal to `bit`.
#[verifier::external_body]
pub(crate) fn bits_filled(len: usize, bit: bool) -> (out: BitVec)
    ensures
        bit_contents(out) == Seq::new(len as nat, |i: int| bit),
{
    BitVec::from_elem(len, bit)
}

/// `BitVec::set`: overwrites the bit at index `i` and leaves the others as
/// they were.  The method panics on an index past the end, which the
/// precondition rules out.
#[verifier::external_body]
pub(crate) fn bits_set(bits: &mut BitVec, i: usize, value: bool)
    requires
        i < bit_contents(*old(bits)).len(),
    ensures
        bit_contents(*final(bits)) == bit_contents(*old(bits)).update(i as int, value),
{
    bits.set(i, value)
}

/// `BitVec::get`: the bit at index `i`, or `None` past the end.
#[verifier::external_body]
pub(crate) fn bits_get(bits: &BitVec, i: usize) -> (out: Option<bool>)
    ensures
        out == if i < bit_contents(*bits).len() {
            Some(bit_contents(*bits)[i as int])
        } else {
            None
        },
{
    bits.get(i)
}

} // verus!
