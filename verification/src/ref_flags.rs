//! The reference bits of the CLOCK policy, one per frame, kept in a bit
//! vector.

use vstd::prelude::*;
use bitvec::vec::BitVec;

verus! {

/// One reference bit per frame, in a `bitvec::vec::BitVec`.
///
/// The verifier sees nothing inside: what the vector holds is known by the
/// name [`ref_bits`] and through the contracts of the three functions below,
/// which are taken on trust from the bit vector's documentation.
#[verifier::external_body]
pub struct RefFlags {
    bits: BitVec,
}

/// The bits that `flags` holds, by frame.
pub uninterp spec fn ref_bits(flags: RefFlags) -> Seq<bool>;

/// `BitVec::repeat(false, len)`: a vector of `len` bits, all clear. The call
/// panics where `len` exceeds the longest bit vector, an eighth of the
/// address space.
#[verifier::external_body]
pub(crate) fn ref_flags_cleared(len: usize) -> (flags: RefFlags)
    requires
        len <= usize::MAX / 8,
    ensures
        ref_bits(flags) == Seq::new(len as nat, |i: int| false),
{
    RefFlags { bits: BitVec::repeat(false, len) }
}

/// `BitSlice::set`: writes `value` into bit `index` and leaves the others. The
/// call panics where `index` is out of bounds.
#[verifier::external_body]
pub(crate) fn ref_flags_set(flags: &mut RefFlags, index: usize, value: bool)
    requires
        index < ref_bits(*old(flags)).len(),
    ensures
        ref_bits(*final(flags)) == ref_bits(*old(flags)).update(index as int, value),
{
    flags.bits.set(index, value)
}

/// `BitSlice::get`, with the bit read out of the reference that it gives: bit
/// `index`, or `None` where `index` is out of bounds.
#[verifier::external_body]
pub(crate) fn ref_flags_get(flags: &RefFlags, index: usize) -> (bit: Option<bool>)
    ensures
        index < ref_bits(*flags).len() ==> bit == Some(ref_bits(*flags)[index as int]),
        index >= ref_bits(*flags).len() ==> bit is None,
{
    let bit = flags.bits.get(index);
    bit.as_deref().copied()
}

} // verus!
