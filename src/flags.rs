//! Visited-node flags, kept in a `bitvec::vec::BitVec`.
use bitvec::order::Lsb0;
use bitvec::vec::BitVec;
use vstd::prelude::*;

verus! {

/// A fixed-length vector of flags, one per node.
#[verifier::external_body]
pub struct Flags {
    bits: BitVec<usize, Lsb0>,
}

/// The flags a `Flags` holds, in index order.
pub uninterp spec fn bits_of(v: Flags) -> Seq<bool>;

/// Relies on `BitVec::repeat`: `len` bits, each equal to `bit`.
#[verifier::external_body]
pub(crate) fn new_flags(len: usize) -> (r: Flags)
    ensures
        bits_of(r) == Seq::new(len as nat, |i: int| false),
{
    Flags { bits: BitVec::repeat(false, len) }
}

/// Relies on `BitSlice::set`: writes one bit, the others stay; panics out of range.
#[verifier::external_body]
pub(crate) fn set_flag(v: &mut Flags, index: usize)
    requires
        index < bits_of(*old(v)).len(),
    ensures
        bits_of(*final(v)) == bits_of(*old(v)).update(index as int, true),
{
    v.bits.set(index, true)
}

/// Relies on `BitSlice`'s `Index<usize>`: reads one bit; panics out of range.
#[verifier::external_body]
pub(crate) fn flag(v: &Flags, index: usize) -> (r: bool)
    requires
        index < bits_of(*v).len(),
    ensures
        r == bits_of(*v)[index as int],
{
    v.bits[index]
}

} // verus!
