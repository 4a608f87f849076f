//! Trusted interface to proptest's `VarBitSet`, the bit set that row
//! filters are expressed with.
//!
//! A `VarBitSet` is modelled as the set of indices whose bit is set.
//! `new_bitset` yields an empty set with initial capacity for `max`
//! bits, `set` inserts an index (growing as needed), and `test` reports
//! membership (`false` beyond the current capacity).

use vstd::prelude::*;

verus! {

#[verifier::external_type_specification]
#[verifier::external_body]
pub struct ExVarBitSet(proptest::bits::VarBitSet);

/// The set of bit indices that are set in `s`.
pub uninterp spec fn bit_set_of(s: proptest::bits::VarBitSet) -> Set<int>;

/// Relies on proptest's `VarBitSet::new_bitset`: a fresh bit set with
/// all bits clear.
#[verifier::external_body]
pub(crate) fn bitset_new(max: usize) -> (r: proptest::bits::VarBitSet)
    ensures
        bit_set_of(r) == Set::<int>::empty(),
{
    <proptest::bits::VarBitSet as proptest::bits::BitSetLike>::new_bitset(max)
}

/// Relies on proptest's `VarBitSet::set`: sets the given bit, growing
/// the underlying storage when needed.
#[verifier::external_body]
pub(crate) fn bitset_set(s: &mut proptest::bits::VarBitSet, ix: usize)
    ensures
        bit_set_of(*final(s)) == bit_set_of(*old(s)).insert(ix as int),
{
    proptest::bits::BitSetLike::set(s, ix)
}

/// Relies on proptest's `VarBitSet::test`: whether the given bit is set.
#[verifier::external_body]
pub(crate) fn bitset_test(s: &proptest::bits::VarBitSet, ix: usize) -> (r: bool)
    ensures
        r == bit_set_of(*s).contains(ix as int),
{
    proptest::bits::BitSetLike::test(s, ix)
}

} // verus!
