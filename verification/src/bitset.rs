//! What this library relies on of `fixedbitset::FixedBitSet`, the marker set
//! of the inclusion test.
use fixedbitset::FixedBitSet;
use vstd::prelude::*;

verus! {

/// `fixedbitset::FixedBitSet`, carried through as it is: nothing is known of
/// a value but what the items below say.
#[verifier::external_type_specification]
#[verifier::external_body]
pub struct ExFixedBitSet(fixedbitset::FixedBitSet);

/// The bits of a set, in order: one flag per position, `true` where the bit
/// is set.
pub uninterp spec fn bits(set: FixedBitSet) -> Seq<bool>;

/// How many flags of `flags` are set.
pub open spec fn count_set(flags: Seq<bool>) -> nat
    decreases flags.len(),
{
    if flags.len() == 0 {
        0
    } else {
        count_set(flags.drop_last()) + if flags.last() {
            1nat
        } else {
            0nat
        }
    }
}

/// `FixedBitSet::with_capacity`: a set of `capacity` bits, all of them clear.
pub assume_specification[ FixedBitSet::with_capacity ](capacity: usize) -> (set: FixedBitSet)
    ensures
        bits(set).len() == capacity,
        forall|i: int| 0 <= i < capacity ==> !#[trigger] bits(set)[i],
;

/// `FixedBitSet::set`: gives the bit at `bit` the value `enabled` and leaves
/// every other bit as it was. The method panics when `bit` is not a position
/// of the set.
pub assume_specification[ FixedBitSet::set ](set: &mut FixedBitSet, bit: usize, enabled: bool)
    requires
        bit < bits(*old(set)).len(),
    ensures
        bits(*final(set)) == bits(*old(set)).update(bit as int, enabled),
;

/// `FixedBitSet::count_ones` over the whole set: the number of set bits.
#[verifier::external_body]
pub(crate) fn count_all_ones(set: &FixedBitSet) -> (count: usize)
    ensures
        count == count_set(bits(*set)),
{
    set.count_ones(..)
}

/// No more flags are set than there are flags, and all of them are set
/// exactly when the count reaches the length.
pub proof fn lemma_count_set_full(flags: Seq<bool>)
    ensures
        count_set(flags) <= flags.len(),
        count_set(flags) == flags.len() <==> (forall|i: int| 0 <= i < flags.len() ==> flags[i]),
    decreases flags.len(),
{
    if flags.len() > 0 {
        let front = flags.drop_last();
        lemma_count_set_full(front);
        if count_set(flags) == flags.len() {
            assert forall|i: int| 0 <= i < flags.len() implies flags[i] by {
                if i < front.len() {
                    assert(front[i]);
                }
            }
        }
        if forall|i: int| 0 <= i < flags.len() ==> flags[i] {
            assert forall|i: int| 0 <= i < front.len() implies front[i] by {
                assert(flags[i]);
            }
        }
    }
}

} // verus!
