//! Ordering the predicates of a conjunction by their words, and what the
//! order of a conjunction does not change.
use crate::filter::Filter;
use crate::partition::{distinct_ids, sorted};
use vstd::prelude::*;

verus! {

/// Whether the words of `filters` ascend, equal words allowed.
pub open spec fn ascending(filters: Seq<Filter>) -> bool {
    forall|i: int, j: int|
        0 <= i < j < filters.len() ==> filters[i].component <= filters[j].component
}

/// Putting an element into a sequence adds it to what the sequence holds.
proof fn lemma_insert_to_multiset(filters: Seq<Filter>, at: int, filter: Filter)
    requires
        0 <= at <= filters.len(),
    ensures
        filters.insert(at, filter).to_multiset() == filters.to_multiset().insert(filter),
{
    broadcast use vstd::seq_lib::group_to_multiset_ensures;

    let longer = filters.insert(at, filter);
    assert(longer.remove(at) =~= filters);
    assert(longer[at] == filter);
    assert(longer.remove(at).to_multiset() == longer.to_multiset().remove(filter));
    assert(longer.contains(filter));
    assert(longer.to_multiset() =~= filters.to_multiset().insert(filter));
}

/// Sorts `filters` by their words, ascending.
pub fn sort_filters(filters: &mut Vec<Filter>)
    ensures
        ascending(final(filters)@),
        final(filters)@.to_multiset() == old(filters)@.to_multiset(),
{
    broadcast use vstd::seq_lib::group_to_multiset_ensures;

    let mut sorted: Vec<Filter> = Vec::with_capacity(filters.len());
    let mut taken: usize = 0;
    while taken < filters.len()
        invariant
            0 <= taken <= filters.len(),
            *filters == *old(filters),
            sorted.len() == taken,
            ascending(sorted@),
            sorted@.to_multiset() == filters@.take(taken as int).to_multiset(),
        decreases filters.len() - taken,
    {
        let next: Filter = filters[taken];
        let mut at: usize = 0;
        while at < sorted.len() && sorted[at].component <= next.component
            invariant
                0 <= at <= sorted.len(),
                forall|i: int| 0 <= i < at ==> sorted@[i].component <= next.component,
            decreases sorted.len() - at,
        {
            at += 1;
        }
        let ghost before = sorted@;
        sorted.insert(at, next);
        proof {
            lemma_insert_to_multiset(before, at as int, next);
            let prefix = filters@.take(taken as int);
            assert(filters@.take(taken + 1) =~= prefix.push(next));
            vstd::seq_lib::to_multiset_build(prefix, next);
            assert forall|i: int, j: int| 0 <= i < j < sorted@.len() implies sorted@[i].component
                <= sorted@[j].component by {
                if i < at && j > at {
                    assert(sorted@[i] == before[i] && sorted@[j] == before[j - 1]);
                } else if i < at && j < at {
                    assert(sorted@[i] == before[i] && sorted@[j] == before[j]);
                } else if i > at {
                    assert(sorted@[i] == before[i - 1] && sorted@[j] == before[j - 1]);
                } else if i == at {
                    assert(sorted@[j] == before[j - 1]);
                    assert(before[at as int].component > next.component);
                }
            }
        }
        taken += 1;
    }
    proof {
        assert(filters@.take(taken as int) =~= filters@);
    }
    *filters = sorted;
}

/// Whether a sequence holds a component in two places is a matter of what it
/// holds, not of the order: of two sequences that hold the same predicates,
/// each as often, both have distinct identifiers or neither has.
pub proof fn lemma_distinct_ids_of_same_filters(one: Seq<Filter>, other: Seq<Filter>)
    requires
        one.to_multiset() == other.to_multiset(),
        distinct_ids(one),
    ensures
        distinct_ids(other),
{
    broadcast use vstd::seq_lib::group_to_multiset_ensures;

    assert(one.no_duplicates()) by {
        assert forall|i: int, j: int|
            0 <= i < one.len() && 0 <= j < one.len() && i != j implies one[i] != one[j] by {
            if i < j {
                assert(one[i].spec_id() != one[j].spec_id());
            } else {
                assert(one[j].spec_id() != one[i].spec_id());
            }
        }
    }
    one.lemma_multiset_has_no_duplicates();
    other.lemma_multiset_has_no_duplicates_conv();
    assert forall|i: int, j: int| 0 <= i < j < other.len() implies other[i].spec_id()
        != other[j].spec_id() by {
        assert(other[i] != other[j]);
        assert(other.contains(other[i]));
        assert(other.contains(other[j]));
        assert(one.to_multiset().count(other[i]) > 0);
        assert(one.to_multiset().count(other[j]) > 0);
        assert(one.contains(other[i]));
        assert(one.contains(other[j]));
        let a = choose|a: int| 0 <= a < one.len() && one[a] == other[i];
        let b = choose|b: int| 0 <= b < one.len() && one[b] == other[j];
        if a < b {
            assert(one[a].spec_id() != one[b].spec_id());
        } else {
            assert(one[b].spec_id() != one[a].spec_id());
        }
    }
}

/// The sorted order is unique: two sorted sequences that hold the same
/// predicates are equal. So what a conjunction holds determines its layout.
pub proof fn lemma_sorted_is_unique(one: Seq<Filter>, other: Seq<Filter>)
    requires
        sorted(one),
        sorted(other),
        one.to_multiset() == other.to_multiset(),
    ensures
        one == other,
{
    let at_most = |a: Filter, b: Filter| a.component <= b.component;
    assert(vstd::relations::total_ordering(at_most));
    assert(vstd::relations::sorted_by(one, at_most)) by {
        assert forall|i: int, j: int| 0 <= i < j < one.len() implies #[trigger] at_most(
            one[i],
            one[j],
        ) by {
            assert(one[i].component < one[j].component);
        }
    }
    assert(vstd::relations::sorted_by(other, at_most)) by {
        assert forall|i: int, j: int| 0 <= i < j < other.len() implies #[trigger] at_most(
            other[i],
            other[j],
        ) by {
            assert(other[i].component < other[j].component);
        }
    }
    vstd::seq_lib::lemma_sorted_unique(one, other, at_most);
}

} // verus!
