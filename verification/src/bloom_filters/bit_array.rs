//! Bit storage: `bit_vec::BitVec`, seen by the verifier as a sequence of
//! booleans of fixed length.

use bit_vec::BitVec;
use vstd::prelude::*;

verus! {

/// `bit_vec::BitVec`, declared without its fields: a value of it is known
/// to the verifier only through `bits`.
#[verifier::external_type_specification]
#[verifier::external_body]
#[verifier::reject_recursive_types(B)]
pub struct ExBitVec<B>(BitVec<B>);

/// The bits that a bit vector holds, first to last.
pub uninterp spec fn bits(v: BitVec<u32>) -> Seq<bool>;

/// Trusted: `BitVec::from_elem` returns a vector of `nbits` bits, each of
/// them equal to `bit`.
#[verifier::external_body]
pub(crate) fn from_elem(nbits: usize, bit: bool) -> (bv: BitVec<u32>)
    ensures
        bits(bv) == Seq::new(nbits as nat, |i: int| bit),
{
    BitVec::from_elem(nbits, bit)
}

/// Trusted: `BitVec::set` writes `x` at index `i` and leaves every other bit
/// and the length as they were. It panics on an index past the end, which
/// the precondition excludes.
#[verifier::external_body]
pub(crate) fn set_bit(bv: &mut BitVec<u32>, i: usize, x: bool)
    requires
        i < bits(*old(bv)).len(),
    ensures
        bits(*final(bv)) == bits(*old(bv)).update(i as int, x),
{
    bv.set(i, x)
}

/// Trusted: `BitVec::get` returns the bit at index `i`, or `None` where `i`
/// is past the end.
#[verifier::external_body]
pub(crate) fn get_bit(bv: &BitVec<u32>, i: usize) -> (bit: Option<bool>)
    ensures
        bit == (if i < bits(*bv).len() {
            Some(bits(*bv)[i as int])
        } else {
            None
        }),
{
    bv.get(i)
}

} // verus!
