//! Bit-indexed sets over candidate ranks.
//!
//! The validity sets of the resolution path ("can this quote open a span",
//! "is this delimiter currently structural") are bit-vectors indexed by a
//! candidate's rank.  They are held in `bitvec`'s `BitVec`; this module
//! hides that type behind `Mask` and wraps the handful of operations the
//! resolution logic needs, each with a contract over the abstract bit
//! sequence `mask_bits`.

use vstd::prelude::*;

verus! {

/// A bit-indexed set over candidate ranks, supporting O(1) get and set.
#[verifier::external_body]
pub struct Mask {
    bits: bitvec::vec::BitVec<u64, bitvec::order::Lsb0>,
}

/// What a mask holds: one bit per candidate rank.
pub uninterp spec fn mask_bits(m: Mask) -> Seq<bool>;

/// Relies on BitVec::repeat: a bit-vector of `len` copies of `bit`.
#[verifier::external_body]
pub(crate) fn mask_repeat(bit: bool, len: usize) -> (m: Mask)
    ensures
        mask_bits(m) == Seq::new(len as nat, |i: int| bit),
{
    Mask { bits: bitvec::vec::BitVec::repeat(bit, len) }
}

/// Relies on BitSlice::len (through BitVec's deref): the number of bits.
#[verifier::external_body]
pub(crate) fn mask_len(m: &Mask) -> (n: usize)
    ensures
        n == mask_bits(*m).len(),
{
    m.bits.len()
}

/// Relies on BitSlice's Index impl: the bit at rank `i`.
#[verifier::external_body]
pub(crate) fn mask_get(m: &Mask, i: usize) -> (b: bool)
    requires
        i < mask_bits(*m).len(),
    ensures
        b == mask_bits(*m)[i as int],
{
    m.bits[i]
}

/// Relies on BitSlice::set: writes the bit at rank `i` in place.
#[verifier::external_body]
pub(crate) fn mask_set(m: &mut Mask, i: usize, value: bool)
    requires
        i < mask_bits(*old(m)).len(),
    ensures
        mask_bits(*final(m)) == mask_bits(*old(m)).update(i as int, value),
{
    m.bits.set(i, value)
}

/// Relies on BitVec's Clone impl: an equal, independent copy.
#[verifier::external_body]
pub(crate) fn mask_clone(m: &Mask) -> (r: Mask)
    ensures
        mask_bits(r) == mask_bits(*m),
{
    Mask { bits: m.bits.clone() }
}

} // verus!
