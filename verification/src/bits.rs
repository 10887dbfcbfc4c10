//! What `fixedbitset::FixedBitSet` does, over the set of its one bits and its length.

use fixedbitset::FixedBitSet;
use vstd::prelude::*;

verus! {

/// The bitset of the `fixedbitset` crate.
#[verifier::external_type_specification]
#[verifier::external_body]
pub struct ExFixedBitSet(FixedBitSet);

/// The positions of the one bits.
pub uninterp spec fn ones(set: FixedBitSet) -> Set<int>;

/// The number of bits, zero or one.
pub uninterp spec fn capacity(set: FixedBitSet) -> nat;

/// `FixedBitSet::with_capacity`: `bits` bits, all zero.
#[verifier::external_body]
pub(crate) fn with_capacity(bits: usize) -> (set: FixedBitSet)
    ensures
        ones(set) == Set::<int>::empty(),
        capacity(set) == bits,
{
    FixedBitSet::with_capacity(bits)
}

/// `FixedBitSet::len`: the number of bits.
#[verifier::external_body]
pub(crate) fn len(set: &FixedBitSet) -> (bits: usize)
    ensures
        bits == capacity(*set),
{
    set.len()
}

/// `FixedBitSet::contains`: whether the bit is one; a position past the end is zero.
#[verifier::external_body]
pub(crate) fn contains(set: &FixedBitSet, bit: usize) -> (found: bool)
    ensures
        found == (bit < capacity(*set) && ones(*set).contains(bit as int)),
{
    set.contains(bit)
}

/// `FixedBitSet::insert`: sets one bit. The crate panics on a position past the end.
#[verifier::external_body]
pub(crate) fn insert(set: &mut FixedBitSet, bit: usize)
    requires
        bit < capacity(*old(set)),
    ensures
        ones(*final(set)) == ones(*old(set)).insert(bit as int),
        capacity(*final(set)) == capacity(*old(set)),
{
    set.insert(bit)
}

/// `FixedBitSet::put`: sets one bit and says whether it was one before. The crate panics on
/// a position past the end.
#[verifier::external_body]
pub(crate) fn put(set: &mut FixedBitSet, bit: usize) -> (was: bool)
    requires
        bit < capacity(*old(set)),
    ensures
        was == ones(*old(set)).contains(bit as int),
        ones(*final(set)) == ones(*old(set)).insert(bit as int),
        capacity(*final(set)) == capacity(*old(set)),
{
    set.put(bit)
}

/// `FixedBitSet::clear`: every bit becomes zero; the length stays.
#[verifier::external_body]
pub(crate) fn clear(set: &mut FixedBitSet)
    ensures
        ones(*final(set)) == Set::<int>::empty(),
        capacity(*final(set)) == capacity(*old(set)),
{
    set.clear()
}

/// `FixedBitSet::count_ones` over the whole set: the number of one bits, which is at most
/// the length.
#[verifier::external_body]
pub(crate) fn count_ones(set: &FixedBitSet) -> (count: usize)
    ensures
        count == ones(*set).len(),
        count <= capacity(*set),
{
    set.count_ones(..)
}

/// `Clone` for `FixedBitSet`: the same bits and the same length.
pub assume_specification[ <FixedBitSet as std::clone::Clone>::clone ](set: &FixedBitSet) -> (copied: FixedBitSet)
    ensures
        ones(copied) == ones(*set),
        capacity(copied) == capacity(*set),
;

} // verus!
