//! The layout of a conjunction: its predicates in ascending order of their
//! words, which puts each kind in one contiguous block, and the binary search
//! that finds where a block begins.
use crate::filter::{ComponentId, Filter, FilterKind};
use vstd::prelude::*;

verus! {

/// Whether the words of `filters` strictly ascend.
pub open spec fn sorted(filters: Seq<Filter>) -> bool {
    forall|i: int, j: int|
        0 <= i < j < filters.len() ==> filters[i].component < filters[j].component
}

/// Whether no two predicates of `filters` are about the same component,
/// whatever their kinds.
pub open spec fn distinct_ids(filters: Seq<Filter>) -> bool {
    forall|i: int, j: int|
        0 <= i < j < filters.len() ==> filters[i].spec_id() != filters[j].spec_id()
}

/// Whether the identifiers of `filters` strictly ascend.
pub open spec fn ascending_ids(filters: Seq<Filter>) -> bool {
    forall|i: int, j: int|
        0 <= i < j < filters.len() ==> filters[i].spec_id().0 < filters[j].spec_id().0
}

/// Whether `filters` is laid out as a conjunction: sorted by word, and with at
/// most one predicate for each component.
pub open spec fn is_conjunction(filters: Seq<Filter>) -> bool {
    sorted(filters) && distinct_ids(filters)
}

/// The predicates of `filters` that have the kind `kind`, in their order.
pub open spec fn of_kind(filters: Seq<Filter>, kind: FilterKind) -> Seq<Filter> {
    filters.filter(|f: Filter| f.spec_kind() == kind)
}

/// The predicates of `filters` that ask for their component to be present:
/// all but those of the kind `Without`, in their order.
pub open spec fn inclusive_of(filters: Seq<Filter>) -> Seq<Filter> {
    filters.filter(|f: Filter| f.spec_kind().requires_presence())
}

/// The smallest word that a predicate of the kind `kind` can have.
pub open spec fn floor_of(kind: FilterKind) -> int {
    kind.ordinal() * 0x4000_0000
}

/// Whether `at` splits `filters` at `bound`: every word before `at` is below
/// `bound`, and every word from `at` on is at or above it.
pub open spec fn splits_at(filters: Seq<Filter>, at: int, bound: int) -> bool {
    &&& 0 <= at <= filters.len()
    &&& forall|i: int| 0 <= i < at ==> filters[i].component < bound
    &&& forall|i: int| at <= i < filters.len() ==> filters[i].component >= bound
}

/// The number of predicates of `filters` whose kind comes before `kind` in
/// the sort order.
pub open spec fn block_start(filters: Seq<Filter>, kind: FilterKind) -> int {
    filters.filter(|f: Filter| f.spec_kind().ordinal() < kind.ordinal()).len() as int
}

/// The position at which `bound` splits the sorted `filters`.
pub fn lower_bound(filters: &[Filter], bound: u32) -> (at: usize)
    requires
        sorted(filters@),
    ensures
        splits_at(filters@, at as int, bound as int),
{
    let mut low: usize = 0;
    let mut high: usize = filters.len();
    while low < high
        invariant
            0 <= low <= high <= filters.len(),
            sorted(filters@),
            forall|i: int| 0 <= i < low ==> filters@[i].component < bound,
            forall|i: int| high <= i < filters.len() ==> filters@[i].component >= bound,
        decreases high - low,
    {
        let middle: usize = low + (high - low) / 2;
        if filters[middle].component < bound {
            low = middle + 1;
        } else {
            high = middle;
        }
    }
    low
}

/// The position at which the block of the kind `kind` begins in the sorted
/// `filters`: that of the first predicate whose kind is `kind` or a later one.
pub fn first_of_kind(filters: &[Filter], kind: FilterKind) -> (at: usize)
    requires
        sorted(filters@),
    ensures
        at == block_start(filters@, kind),
        splits_at(filters@, at as int, floor_of(kind)),
{
    let floor: Filter = Filter::new(kind, ComponentId::new(0));
    let at: usize = lower_bound(filters, floor.component);
    proof {
        lemma_split_is_count(filters@, at as int, kind);
    }
    at
}

/// Where `at` splits `filters` at the floor of `kind`, `at` predicates have
/// an earlier kind.
pub proof fn lemma_split_is_count(filters: Seq<Filter>, at: int, kind: FilterKind)
    requires
        splits_at(filters, at, floor_of(kind)),
    ensures
        at == block_start(filters, kind),
        filters.subrange(0, at) == filters.filter(
            |f: Filter| f.spec_kind().ordinal() < kind.ordinal(),
        ),
    decreases filters.len(),
{
    reveal(Seq::filter);
    let earlier = |f: Filter| f.spec_kind().ordinal() < kind.ordinal();
    if filters.len() == 0 {
        assert(filters.subrange(0, at) =~= filters.filter(earlier));
    } else {
        let front = filters.drop_last();
        let last = filters.last();
        assert(earlier(last) <==> last.component < floor_of(kind));
        if at == filters.len() {
            lemma_split_is_count(front, at - 1, kind);
            assert(filters.subrange(0, at) =~= front.subrange(0, at - 1).push(last));
        } else {
            lemma_split_is_count(front, at, kind);
            assert(filters.subrange(0, at) =~= front.subrange(0, at));
        }
    }
}

/// The predicates between the split at the floor of `kind` and the split at
/// the floor of the next kind are those of the kind `kind`, and no others.
pub proof fn lemma_block_is_kind(filters: Seq<Filter>, kind: FilterKind, from: int, to: int)
    requires
        splits_at(filters, from, floor_of(kind)),
        splits_at(filters, to, floor_of(kind) + 0x4000_0000),
    ensures
        from <= to,
        filters.subrange(from, to) == of_kind(filters, kind),
    decreases filters.len(),
{
    reveal(Seq::filter);
    let has_kind = |f: Filter| f.spec_kind() == kind;
    if from > to {
        assert(filters[to].component < floor_of(kind));
    }
    if filters.len() == 0 {
        assert(filters.subrange(from, to) =~= filters.filter(has_kind));
    } else {
        let front = filters.drop_last();
        let last = filters.last();
        assert(has_kind(last) <==> floor_of(kind) <= last.component < floor_of(kind) + 0x4000_0000);
        let front_from = if from == filters.len() {
            from - 1
        } else {
            from
        };
        let front_to = if to == filters.len() {
            to - 1
        } else {
            to
        };
        lemma_block_is_kind(front, kind, front_from, front_to);
        if has_kind(last) {
            assert(filters.subrange(from, to) =~= front.subrange(front_from, front_to).push(last));
        } else {
            assert(filters.subrange(from, to) =~= front.subrange(front_from, front_to));
        }
    }
}

/// In sorted predicates, the count of those of earlier kinds is where the
/// floor of `kind` splits them: the block of `kind` begins there.
pub proof fn lemma_block_start_splits(filters: Seq<Filter>, kind: FilterKind)
    requires
        sorted(filters),
    ensures
        splits_at(filters, block_start(filters, kind), floor_of(kind)),
    decreases filters.len(),
{
    reveal(Seq::filter);
    let earlier = |f: Filter| f.spec_kind().ordinal() < kind.ordinal();
    if filters.len() > 0 {
        let front = filters.drop_last();
        let last = filters.last();
        lemma_block_start_splits(front, kind);
        let at = block_start(front, kind);
        assert(earlier(last) <==> last.component < floor_of(kind));
        if earlier(last) {
            if at < front.len() {
                assert(front[at] == filters[at]);
                assert(filters[at].component < last.component);
            }
            assert(block_start(filters, kind) == filters.len());
        } else {
            assert(block_start(filters, kind) == at);
            assert forall|i: int| at <= i < filters.len() implies filters[i].component >= floor_of(
                kind,
            ) by {
                if i < front.len() {
                    assert(front[i] == filters[i]);
                }
            }
        }
        assert forall|i: int| 0 <= i < block_start(filters, kind) implies filters[i].component
            < floor_of(kind) by {
            if i < front.len() {
                assert(front[i] == filters[i]);
            }
        }
    }
}

/// The layout of sorted predicates. Each kind has one contiguous block, which
/// begins where the count of the predicates of earlier kinds says, and in
/// which the identifiers ascend; the four blocks follow one another in the
/// order `With`, `Changed`, `Added`, `Without` and make up the whole.
pub proof fn lemma_kind_blocks(filters: Seq<Filter>)
    requires
        sorted(filters),
    ensures
        forall|kind: FilterKind|
            {
                let block = #[trigger] of_kind(filters, kind);
                let start = block_start(filters, kind);
                &&& 0 <= start <= start + block.len() <= filters.len()
                &&& block == filters.subrange(start, start + block.len())
                &&& ascending_ids(block)
            },
        block_start(filters, FilterKind::With) == 0,
        block_start(filters, FilterKind::Changed) == of_kind(filters, FilterKind::With).len(),
        block_start(filters, FilterKind::Added) == block_start(filters, FilterKind::Changed)
            + of_kind(filters, FilterKind::Changed).len(),
        block_start(filters, FilterKind::Without) == block_start(filters, FilterKind::Added)
            + of_kind(filters, FilterKind::Added).len(),
        filters.len() == block_start(filters, FilterKind::Without) + of_kind(
            filters,
            FilterKind::Without,
        ).len(),
{
    let with = block_start(filters, FilterKind::With);
    let changed = block_start(filters, FilterKind::Changed);
    let added = block_start(filters, FilterKind::Added);
    let without = block_start(filters, FilterKind::Without);
    let end = filters.len() as int;
    lemma_block_start_splits(filters, FilterKind::With);
    lemma_block_start_splits(filters, FilterKind::Changed);
    lemma_block_start_splits(filters, FilterKind::Added);
    lemma_block_start_splits(filters, FilterKind::Without);
    assert(splits_at(filters, end, floor_of(FilterKind::Without) + 0x4000_0000));
    assert(with == 0) by {
        if with > 0 {
            assert(filters[0].component < 0);
        }
    }
    lemma_block_is_kind(filters, FilterKind::With, with, changed);
    lemma_block_is_kind(filters, FilterKind::Changed, changed, added);
    lemma_block_is_kind(filters, FilterKind::Added, added, without);
    lemma_block_is_kind(filters, FilterKind::Without, without, end);
    assert forall|kind: FilterKind|
        {
            let block = #[trigger] of_kind(filters, kind);
            let start = block_start(filters, kind);
            &&& 0 <= start <= start + block.len() <= filters.len()
            &&& block == filters.subrange(start, start + block.len())
            &&& ascending_ids(block)
        } by {
        let block = of_kind(filters, kind);
        let start = block_start(filters, kind);
        match kind {
            FilterKind::With => {
                assert(block == filters.subrange(with, changed));
            },
            FilterKind::Changed => {
                assert(block == filters.subrange(changed, added));
            },
            FilterKind::Added => {
                assert(block == filters.subrange(added, without));
            },
            FilterKind::Without => {
                assert(block == filters.subrange(without, end));
            },
        }
        lemma_block_ascends(filters, kind, start, start + block.len());
    }
}

/// A stretch of sorted predicates that all have one kind ascends by
/// identifier.
proof fn lemma_block_ascends(filters: Seq<Filter>, kind: FilterKind, from: int, to: int)
    requires
        sorted(filters),
        0 <= from <= to <= filters.len(),
        filters.subrange(from, to) == of_kind(filters, kind),
    ensures
        ascending_ids(filters.subrange(from, to)),
{
    broadcast use vstd::seq_lib::group_filter_ensures;

    let block = filters.subrange(from, to);
    assert forall|i: int, j: int| 0 <= i < j < block.len() implies block[i].spec_id().0
        < block[j].spec_id().0 by {
        assert(block[i] == filters[from + i] && block[j] == filters[from + j]);
        assert(block[i].spec_kind() == kind);
        assert(block[j].spec_kind() == kind);
        crate::filter::lemma_word_order_is_lexicographic(block[i], block[j]);
    }
}

} // verus!
