//! The two matchers: the structural test of an archetype's components against
//! the presence and absence predicates of a conjunction, and the temporal
//! test of one entity's change ticks against its `Changed` and `Added`
//! predicates.
use crate::archetype::{components, components_of};
use crate::bitset::{bits, count_all_ones, lemma_count_set_full};
use crate::filter::{ComponentId, Filter, FilterKind};
use crate::partition::{
    ascending_ids, distinct_ids, first_of_kind, floor_of, inclusive_of, is_conjunction,
    lemma_block_is_kind, lemma_split_is_count, of_kind, sorted, splits_at,
};
use crate::tick::{newer_than, tick_is_newer_than, ComponentTicks, EntityTicks};
use bevy_ecs::archetype::Archetype;
use fixedbitset::FixedBitSet;
use vstd::prelude::*;
use vstd::slice::slice_subrange;

verus! {

/// Whether every predicate of `filters` is about a component among `ids`.
pub open spec fn all_present(filters: Seq<Filter>, ids: Seq<ComponentId>) -> bool {
    forall|i: int| 0 <= i < filters.len() ==> ids.contains(#[trigger] filters[i].spec_id())
}

/// Whether some predicate of `filters` is about a component among `ids`.
pub open spec fn any_present(filters: Seq<Filter>, ids: Seq<ComponentId>) -> bool {
    exists|i: int| 0 <= i < filters.len() && ids.contains(#[trigger] filters[i].spec_id())
}

/// Whether an archetype with the components `ids` satisfies the structure
/// that `filters` asks for: the component of each predicate is present
/// exactly when the predicate's kind asks for its presence.
pub open spec fn structural_match(filters: Seq<Filter>, ids: Seq<ComponentId>) -> bool {
    forall|i: int|
        0 <= i < filters.len() ==> (#[trigger] filters[i].spec_kind().requires_presence()
            <==> ids.contains(filters[i].spec_id()))
}

/// Whether the tick that `kind` looks at, among the recorded `ticks` of a
/// component, lies in the window from `last_run` to `this_run`. Kinds other
/// than `Changed` and `Added` look at no tick.
pub open spec fn tick_holds(
    kind: FilterKind,
    ticks: Option<ComponentTicks>,
    last_run: u32,
    this_run: u32,
) -> bool {
    match kind {
        FilterKind::Changed => ticks matches Some(t) && newer_than(t.changed, last_run, this_run),
        FilterKind::Added => ticks matches Some(t) && newer_than(t.added, last_run, this_run),
        _ => true,
    }
}

/// Whether the change ticks of `entity` satisfy every `Changed` and `Added`
/// predicate of `filters` for the window from `last_run` to `this_run`.
pub open spec fn temporal_match(
    filters: Seq<Filter>,
    entity: EntityTicks,
    last_run: u32,
    this_run: u32,
) -> bool {
    forall|i: int|
        0 <= i < filters.len() ==> tick_holds(
            #[trigger] filters[i].spec_kind(),
            entity.change_ticks(filters[i].spec_id()),
            last_run,
            this_run,
        )
}

/// Whether `id` is among the first `end` of `ids`.
pub open spec fn occurs_before(ids: Seq<ComponentId>, end: int, id: ComponentId) -> bool {
    exists|j: int| 0 <= j < end && #[trigger] ids[j] == id
}

/// Whether some predicate of `filters` is about the component `id`.
pub open spec fn has_id(filters: Seq<Filter>, id: ComponentId) -> bool {
    exists|i: int| 0 <= i < filters.len() && #[trigger] filters[i].spec_id() == id
}

/// Whether `entity` records, for the component of every predicate of
/// `filters`, a tick that satisfies `kind` for the window from `last_run` to
/// `this_run`.
pub open spec fn all_within(
    filters: Seq<Filter>,
    kind: FilterKind,
    entity: EntityTicks,
    last_run: u32,
    this_run: u32,
) -> bool {
    forall|i: int|
        0 <= i < filters.len() ==> tick_holds(
            kind,
            entity.change_ticks(#[trigger] filters[i].spec_id()),
            last_run,
            this_run,
        )
}

/// One more identifier is looked at: `id` occurs among the first `end + 1`
/// exactly when it occurs among the first `end` or is the one at `end`.
proof fn lemma_occurs_step(ids: Seq<ComponentId>, end: int, id: ComponentId)
    requires
        0 <= end < ids.len(),
    ensures
        occurs_before(ids, end + 1, id) <==> (occurs_before(ids, end, id) || ids[end] == id),
        occurs_before(ids, ids.len() as int, id) <==> ids.contains(id),
{
    if occurs_before(ids, end, id) {
        let j = choose|j: int| 0 <= j < end && ids[j] == id;
        assert(0 <= j < end + 1 && ids[j] == id);
    }
    if ids[end] == id {
        assert(0 <= end < end + 1 && ids[end] == id);
    }
}

/// Some predicate is about a component among `ids` exactly when some
/// identifier of `ids` has a predicate about it.
proof fn lemma_any_present(filters: Seq<Filter>, ids: Seq<ComponentId>)
    ensures
        any_present(filters, ids) <==> exists|j: int|
            0 <= j < ids.len() && has_id(filters, #[trigger] ids[j]),
{
    if any_present(filters, ids) {
        let i = choose|i: int|
            0 <= i < filters.len() && ids.contains(#[trigger] filters[i].spec_id());
        let j = choose|j: int| 0 <= j < ids.len() && ids[j] == filters[i].spec_id();
        assert(has_id(filters, ids[j]));
    }
    if exists|j: int| 0 <= j < ids.len() && has_id(filters, #[trigger] ids[j]) {
        let j = choose|j: int| 0 <= j < ids.len() && has_id(filters, #[trigger] ids[j]);
        let i = choose|i: int| 0 <= i < filters.len() && #[trigger] filters[i].spec_id() == ids[j];
        assert(ids.contains(filters[i].spec_id()));
    }
}

/// The position of the first predicate of `filters` about the component `id`.
pub fn position_of(filters: &[Filter], id: ComponentId) -> (position: Option<usize>)
    ensures
        match position {
            Some(p) => p < filters.len() && filters@[p as int].spec_id() == id && forall|i: int|
                0 <= i < p ==> filters@[i].spec_id() != id,
            None => forall|i: int| 0 <= i < filters.len() ==> filters@[i].spec_id() != id,
        },
{
    let mut i: usize = 0;
    while i < filters.len()
        invariant
            0 <= i <= filters.len(),
            forall|j: int| 0 <= j < i ==> filters@[j].spec_id() != id,
        decreases filters.len() - i,
    {
        if filters[i].id() == id {
            return Some(i);
        }
        i += 1;
    }
    None
}

/// Whether some predicate of `filters`, whose identifiers ascend, is about
/// the component `id`.
pub fn contains_id(filters: &[Filter], id: ComponentId) -> (found: bool)
    requires
        ascending_ids(filters@),
    ensures
        found == has_id(filters@, id),
{
    let mut low: usize = 0;
    let mut high: usize = filters.len();
    while low < high
        invariant
            0 <= low <= high <= filters.len(),
            ascending_ids(filters@),
            forall|i: int| 0 <= i < low ==> filters@[i].spec_id().0 < id.0,
            forall|i: int| high <= i < filters.len() ==> filters@[i].spec_id().0 > id.0,
        decreases high - low,
    {
        let middle: usize = low + (high - low) / 2;
        let key: usize = filters[middle].id().index();
        if key == id.index() {
            return true;
        } else if key < id.index() {
            low = middle + 1;
        } else {
            high = middle;
        }
    }
    false
}

/// The predicates of a conjunction that ask for a component to be present.
pub struct InclusiveFilter<'a>(&'a [Filter]);

/// The `Without` predicates of a conjunction.
pub struct ExclusiveFilter<'a>(&'a [Filter]);

/// The `Changed` predicates of a conjunction.
pub struct ChangedFilter<'a>(&'a [Filter]);

/// The `Added` predicates of a conjunction.
pub struct AddedFilter<'a>(&'a [Filter]);

impl<'a> View for InclusiveFilter<'a> {
    type V = Seq<Filter>;

    closed spec fn view(&self) -> Seq<Filter> {
        self.0@
    }
}

impl<'a> View for ExclusiveFilter<'a> {
    type V = Seq<Filter>;

    closed spec fn view(&self) -> Seq<Filter> {
        self.0@
    }
}

impl<'a> View for ChangedFilter<'a> {
    type V = Seq<Filter>;

    closed spec fn view(&self) -> Seq<Filter> {
        self.0@
    }
}

impl<'a> View for AddedFilter<'a> {
    type V = Seq<Filter>;

    closed spec fn view(&self) -> Seq<Filter> {
        self.0@
    }
}

/// Splits a conjunction into the predicates that ask for presence and those
/// that ask for absence. The second group is the block of the kind `Without`
/// at the end of the conjunction; the first is all that comes before it.
pub fn filters<'a>(conjunction: &'a [Filter]) -> (blocks: (
    InclusiveFilter<'a>,
    ExclusiveFilter<'a>,
))
    requires
        is_conjunction(conjunction@),
    ensures
        blocks.0@ == inclusive_of(conjunction@),
        blocks.1@ == of_kind(conjunction@, FilterKind::Without),
        conjunction@ == blocks.0@ + blocks.1@,
{
    let first_exclusive: usize = first_of_kind(conjunction, FilterKind::Without);
    let inclusive: &[Filter] = slice_subrange(conjunction, 0, first_exclusive);
    let exclusive: &[Filter] = slice_subrange(conjunction, first_exclusive, conjunction.len());
    proof {
        lemma_structural_blocks(conjunction@, first_exclusive as int);
    }
    (InclusiveFilter(inclusive), ExclusiveFilter(exclusive))
}

/// Picks the `Changed` and the `Added` predicates out of a conjunction: the
/// two blocks between the `With` block and the `Without` block.
pub fn tick_filters<'a>(filters: &'a [Filter]) -> (blocks: (ChangedFilter<'a>, AddedFilter<'a>))
    requires
        sorted(filters@),
    ensures
        blocks.0@ == of_kind(filters@, FilterKind::Changed),
        blocks.1@ == of_kind(filters@, FilterKind::Added),
{
    let first_changed: usize = first_of_kind(filters, FilterKind::Changed);
    let first_added: usize = first_of_kind(filters, FilterKind::Added);
    let first_without: usize = first_of_kind(filters, FilterKind::Without);
    proof {
        let changed_from = first_changed as int;
        let added_from = first_added as int;
        lemma_block_is_kind(filters@, FilterKind::Changed, changed_from, added_from);
        lemma_block_is_kind(filters@, FilterKind::Added, added_from, first_without as int);
    }
    let changed_filter = ChangedFilter(slice_subrange(filters, first_changed, first_added));
    let added_filter = AddedFilter(slice_subrange(filters, first_added, first_without));
    (changed_filter, added_filter)
}

/// Where a conjunction splits at the floor of `Without`: before the split
/// stand the predicates that ask for presence, with distinct identifiers;
/// from it on those of the kind `Without`, ascending by identifier.
proof fn lemma_structural_blocks(filters: Seq<Filter>, at: int)
    requires
        is_conjunction(filters),
        splits_at(filters, at, floor_of(FilterKind::Without)),
    ensures
        filters.subrange(0, at) == inclusive_of(filters),
        filters.subrange(at, filters.len() as int) == of_kind(filters, FilterKind::Without),
        distinct_ids(filters.subrange(0, at)),
        ascending_ids(filters.subrange(at, filters.len() as int)),
        filters == filters.subrange(0, at) + filters.subrange(at, filters.len() as int),
{
    let end = filters.len() as int;
    assert(filters.subrange(0, at) == inclusive_of(filters)) by {
        lemma_inclusive_is_prefix(filters, at);
    }
    assert(filters.subrange(at, end) == of_kind(filters, FilterKind::Without)) by {
        assert(splits_at(filters, end, floor_of(FilterKind::Without) + 0x4000_0000)) by {
            assert forall|i: int| 0 <= i < end implies filters[i].component < 0x1_0000_0000 by {}
        }
        lemma_block_is_kind(filters, FilterKind::Without, at, end);
    }
    assert(distinct_ids(filters.subrange(0, at))) by {
        lemma_subrange_distinct(filters, 0, at);
    }
    assert(ascending_ids(filters.subrange(at, end))) by {
        lemma_without_ascends(filters, at);
    }
    lemma_split_joins(filters, at);
}

/// A sequence is what stands before a position followed by what stands from
/// it on.
proof fn lemma_split_joins(filters: Seq<Filter>, at: int)
    requires
        0 <= at <= filters.len(),
    ensures
        filters == filters.subrange(0, at) + filters.subrange(at, filters.len() as int),
{
    assert(filters =~= filters.subrange(0, at) + filters.subrange(at, filters.len() as int));
}

/// The predicates before the split at the floor of `Without` are those that
/// ask for presence.
proof fn lemma_inclusive_is_prefix(filters: Seq<Filter>, at: int)
    requires
        splits_at(filters, at, floor_of(FilterKind::Without)),
    ensures
        filters.subrange(0, at) == inclusive_of(filters),
{
    lemma_split_is_count(filters, at, FilterKind::Without);
    let earlier = |f: Filter| f.spec_kind().ordinal() < FilterKind::Without.ordinal();
    let present = |f: Filter| f.spec_kind().requires_presence();
    assert(earlier =~= present);
}

/// A stretch of predicates with distinct identifiers has distinct identifiers.
proof fn lemma_subrange_distinct(filters: Seq<Filter>, from: int, to: int)
    requires
        distinct_ids(filters),
        0 <= from <= to <= filters.len(),
    ensures
        distinct_ids(filters.subrange(from, to)),
{
    let part = filters.subrange(from, to);
    assert forall|i: int, j: int| 0 <= i < j < part.len() implies part[i].spec_id()
        != part[j].spec_id() by {
        assert(part[i] == filters[from + i] && part[j] == filters[from + j]);
    }
}

/// The sorted predicates from the floor of `Without` on ascend by identifier.
proof fn lemma_without_ascends(filters: Seq<Filter>, at: int)
    requires
        sorted(filters),
        splits_at(filters, at, floor_of(FilterKind::Without)),
    ensures
        ascending_ids(filters.subrange(at, filters.len() as int)),
{
    let part = filters.subrange(at, filters.len() as int);
    assert forall|i: int, j: int| 0 <= i < j < part.len() implies part[i].spec_id().0
        < part[j].spec_id().0 by {
        let a = filters[at + i];
        let b = filters[at + j];
        assert(part[i] == a && part[j] == b);
        assert(a.component < b.component);
        assert(a.component >= 0xc000_0000);
        assert(b.component >= 0xc000_0000);
    }
}

/// A property holds of every predicate that `keep` picks out of `filters`
/// exactly when it holds of every predicate of `filters` that `keep` accepts.
proof fn lemma_filter_forall(
    filters: Seq<Filter>,
    keep: spec_fn(Filter) -> bool,
    holds: spec_fn(Filter) -> bool,
)
    ensures
        (forall|k: int| 0 <= k < filters.filter(keep).len() ==> holds(
            #[trigger] filters.filter(keep)[k],
        )) <==> (forall|i: int|
            0 <= i < filters.len() && keep(filters[i]) ==> holds(#[trigger] filters[i])),
{
    broadcast use vstd::seq_lib::group_filter_ensures;

    let kept = filters.filter(keep);
    if forall|k: int| 0 <= k < kept.len() ==> holds(#[trigger] kept[k]) {
        assert forall|i: int| 0 <= i < filters.len() && keep(filters[i]) implies holds(
            #[trigger] filters[i],
        ) by {
            assert(kept.contains(filters[i]));
            let k = choose|k: int| 0 <= k < kept.len() && kept[k] == filters[i];
            assert(holds(kept[k]));
        }
    }
    if forall|i: int| 0 <= i < filters.len() && keep(filters[i]) ==> holds(#[trigger] filters[i]) {
        assert forall|k: int| 0 <= k < kept.len() implies holds(#[trigger] kept[k]) by {
            assert(kept.contains(kept[k]));
            filters.lemma_filter_contains_rev(keep, kept[k]);
            let i = choose|i: int| 0 <= i < filters.len() && filters[i] == kept[k];
            assert(keep(filters[i]));
            assert(holds(filters[i]));
        }
    }
}

/// An archetype matches the structure of a conjunction exactly when it has
/// the component of every predicate that asks for presence and of no
/// `Without` predicate.
pub proof fn lemma_structural_match(filters: Seq<Filter>, ids: Seq<ComponentId>)
    ensures
        structural_match(filters, ids) <==> (all_present(inclusive_of(filters), ids)
            && !any_present(of_kind(filters, FilterKind::Without), ids)),
{
    let present = |f: Filter| f.spec_kind().requires_presence();
    let absent = |f: Filter| f.spec_kind() == FilterKind::Without;
    let has = |f: Filter| ids.contains(f.spec_id());
    let lacks = |f: Filter| !ids.contains(f.spec_id());
    lemma_filter_forall(filters, present, has);
    lemma_filter_forall(filters, absent, lacks);
    let inclusive = inclusive_of(filters);
    let exclusive = of_kind(filters, FilterKind::Without);
    assert(all_present(inclusive, ids) <==> (forall|k: int|
        0 <= k < inclusive.len() ==> has(#[trigger] inclusive[k])));
    assert(!any_present(exclusive, ids) <==> (forall|k: int|
        0 <= k < exclusive.len() ==> lacks(#[trigger] exclusive[k]))) by {
        if !any_present(exclusive, ids) {
            assert forall|k: int| 0 <= k < exclusive.len() implies lacks(
                #[trigger] exclusive[k],
            ) by {
                assert(!ids.contains(exclusive[k].spec_id()));
            }
        }
    }
    if structural_match(filters, ids) {
        assert forall|i: int| 0 <= i < filters.len() && present(filters[i]) implies has(
            #[trigger] filters[i],
        ) by {
            assert(filters[i].spec_kind().requires_presence());
        }
        assert forall|i: int| 0 <= i < filters.len() && absent(filters[i]) implies lacks(
            #[trigger] filters[i],
        ) by {
            assert(!filters[i].spec_kind().requires_presence());
        }
    }
    if all_present(inclusive, ids) && !any_present(exclusive, ids) {
        assert forall|i: int| 0 <= i < filters.len() implies (
        #[trigger] filters[i].spec_kind().requires_presence() <==> ids.contains(
            filters[i].spec_id(),
        )) by {
            if present(filters[i]) {
                assert(has(filters[i]));
            } else {
                assert(absent(filters[i]));
                assert(lacks(filters[i]));
            }
        }
    }
}

/// The ticks of an entity satisfy a conjunction exactly when they satisfy its
/// `Changed` predicates and its `Added` predicates.
pub proof fn lemma_temporal_match(
    filters: Seq<Filter>,
    entity: EntityTicks,
    last_run: u32,
    this_run: u32,
)
    ensures
        temporal_match(filters, entity, last_run, this_run) <==> (all_within(
            of_kind(filters, FilterKind::Changed),
            FilterKind::Changed,
            entity,
            last_run,
            this_run,
        ) && all_within(
            of_kind(filters, FilterKind::Added),
            FilterKind::Added,
            entity,
            last_run,
            this_run,
        )),
{
    let is_changed = |f: Filter| f.spec_kind() == FilterKind::Changed;
    let is_added = |f: Filter| f.spec_kind() == FilterKind::Added;
    let changed_holds = |f: Filter|
        tick_holds(FilterKind::Changed, entity.change_ticks(f.spec_id()), last_run, this_run);
    let added_holds = |f: Filter|
        tick_holds(FilterKind::Added, entity.change_ticks(f.spec_id()), last_run, this_run);
    lemma_filter_forall(filters, is_changed, changed_holds);
    lemma_filter_forall(filters, is_added, added_holds);
    let changed = of_kind(filters, FilterKind::Changed);
    let added = of_kind(filters, FilterKind::Added);
    assert(all_within(changed, FilterKind::Changed, entity, last_run, this_run) <==> (forall|
        k: int,
    | 0 <= k < changed.len() ==> changed_holds(#[trigger] changed[k])));
    assert(all_within(added, FilterKind::Added, entity, last_run, this_run) <==> (forall|k: int|
        0 <= k < added.len() ==> added_holds(#[trigger] added[k])));
    if temporal_match(filters, entity, last_run, this_run) {
        assert forall|i: int|
            0 <= i < filters.len() && is_changed(filters[i]) implies changed_holds(
            #[trigger] filters[i],
        ) by {
            assert(filters[i].spec_kind() == FilterKind::Changed);
        }
        assert forall|i: int| 0 <= i < filters.len() && is_added(filters[i]) implies added_holds(
            #[trigger] filters[i],
        ) by {
            assert(filters[i].spec_kind() == FilterKind::Added);
        }
    }
    if all_within(changed, FilterKind::Changed, entity, last_run, this_run) && all_within(
        added,
        FilterKind::Added,
        entity,
        last_run,
        this_run,
    ) {
        assert forall|i: int| 0 <= i < filters.len() implies tick_holds(
            #[trigger] filters[i].spec_kind(),
            entity.change_ticks(filters[i].spec_id()),
            last_run,
            this_run,
        ) by {
            if is_changed(filters[i]) {
                assert(changed_holds(filters[i]));
            } else if is_added(filters[i]) {
                assert(added_holds(filters[i]));
            }
        }
    }
}

impl<'a> InclusiveFilter<'a> {
    #[verifier::type_invariant]
    spec fn well_formed(&self) -> bool {
        distinct_ids(self.0@)
    }

    /// Whether the components `ids` of an archetype hold the component of
    /// every predicate of this block.
    pub fn all_included(self, ids: &[ComponentId]) -> (included: bool)
        ensures
            included == all_present(self@, ids@),
    {
        proof {
            use_type_invariant(&self);
        }
        let mut found = FixedBitSet::with_capacity(self.0.len());
        let mut k: usize = 0;
        while k < ids.len()
            invariant
                0 <= k <= ids.len(),
                distinct_ids(self.0@),
                bits(found).len() == self.0.len(),
                forall|p: int|
                    0 <= p < self.0.len() ==> (#[trigger] bits(found)[p] <==> occurs_before(
                        ids@,
                        k as int,
                        self.0@[p].spec_id(),
                    )),
            decreases ids.len() - k,
        {
            let ghost before = bits(found);
            let position: Option<usize> = position_of(self.0, ids[k]);
            if let Some(idx) = position {
                found.set(idx, true);
            }
            proof {
                assert forall|p: int| 0 <= p < self.0.len() implies (#[trigger] bits(found)[p]
                    <==> occurs_before(ids@, k + 1, self.0@[p].spec_id())) by {
                    lemma_occurs_step(ids@, k as int, self.0@[p].spec_id());
                    if let Some(idx) = position {
                        if p != idx {
                            assert(bits(found)[p] == before[p]);
                            assert(self.0@[p].spec_id() != self.0@[idx as int].spec_id());
                        }
                    }
                }
            }
            k += 1;
        }
        proof {
            lemma_count_set_full(bits(found));
            if all_present(self.0@, ids@) {
                assert forall|p: int| 0 <= p < bits(found).len() implies bits(found)[p] by {
                    assert(ids@.contains(self.0@[p].spec_id()));
                }
            }
            if forall|p: int| 0 <= p < bits(found).len() ==> bits(found)[p] {
                assert forall|p: int| 0 <= p < self.0@.len() implies ids@.contains(
                    #[trigger] self.0@[p].spec_id(),
                ) by {
                    assert(bits(found)[p]);
                }
            }
        }
        count_all_ones(&found) == self.0.len()
    }
}

impl<'a> ExclusiveFilter<'a> {
    #[verifier::type_invariant]
    spec fn well_formed(&self) -> bool {
        ascending_ids(self.0@)
    }

    /// Whether the components `ids` of an archetype hold the component of
    /// some predicate of this block.
    pub fn any_excluded(&self, ids: &[ComponentId]) -> (excluded: bool)
        ensures
            excluded == any_present(self@, ids@),
    {
        proof {
            use_type_invariant(self);
        }
        let mut found: bool = false;
        let mut k: usize = 0;
        while k < ids.len()
            invariant
                0 <= k <= ids.len(),
                ascending_ids(self.0@),
                found <==> exists|j: int| 0 <= j < k && has_id(self.0@, #[trigger] ids@[j]),
            decreases ids.len() - k,
        {
            let hit: bool = contains_id(self.0, ids[k]);
            proof {
                assert(hit <==> has_id(self.0@, ids@[k as int]));
            }
            found = found || hit;
            k += 1;
        }
        proof {
            lemma_any_present(self.0@, ids@);
        }
        found
    }
}

impl<'a> ChangedFilter<'a> {
    /// Whether every component that this block names was changed on `entity`
    /// inside the window from `last_run` to `this_run`. A component that the
    /// entity does not have was not changed.
    pub fn within_tick(&self, entity: &EntityTicks, last_run: u32, this_run: u32) -> (within: bool)
        ensures
            within == all_within(self@, FilterKind::Changed, *entity, last_run, this_run),
    {
        let mut i: usize = 0;
        while i < self.0.len()
            invariant
                0 <= i <= self.0.len(),
                forall|j: int|
                    0 <= j < i ==> tick_holds(
                        FilterKind::Changed,
                        entity.change_ticks(#[trigger] self.0@[j].spec_id()),
                        last_run,
                        this_run,
                    ),
            decreases self.0.len() - i,
        {
            let newer: bool = match entity.get_change_ticks_by_id(self.0[i].id()) {
                Some(ticks) => tick_is_newer_than(ticks.last_changed_tick(), last_run, this_run),
                None => false,
            };
            if !newer {
                return false;
            }
            i += 1;
        }
        true
    }
}

impl<'a> AddedFilter<'a> {
    /// Whether every component that this block names was added to `entity`
    /// inside the window from `last_run` to `this_run`. A component that the
    /// entity does not have was not added.
    pub fn within_tick(&self, entity: &EntityTicks, last_run: u32, this_run: u32) -> (within: bool)
        ensures
            within == all_within(self@, FilterKind::Added, *entity, last_run, this_run),
    {
        let mut i: usize = 0;
        while i < self.0.len()
            invariant
                0 <= i <= self.0.len(),
                forall|j: int|
                    0 <= j < i ==> tick_holds(
                        FilterKind::Added,
                        entity.change_ticks(#[trigger] self.0@[j].spec_id()),
                        last_run,
                        this_run,
                    ),
            decreases self.0.len() - i,
        {
            let newer: bool = match entity.get_change_ticks_by_id(self.0[i].id()) {
                Some(ticks) => tick_is_newer_than(ticks.added_tick(), last_run, this_run),
                None => false,
            };
            if !newer {
                return false;
            }
            i += 1;
        }
        true
    }
}

/// One conjunction of a query filter, paired with the fetch description of
/// the query it belongs to: the view that tests archetypes.
pub struct Conjunction<'a, F> {
    filters: &'a [Filter],
    fetches: &'a F,
}

impl<'a, F> View for Conjunction<'a, F> {
    type V = Seq<Filter>;

    closed spec fn view(&self) -> Seq<Filter> {
        self.filters@
    }
}

impl<'a, F> Conjunction<'a, F> {
    #[verifier::type_invariant]
    spec fn well_formed(&self) -> bool {
        is_conjunction(self.filters@)
    }

    /// The fetch description that this view is paired with.
    pub closed spec fn spec_fetches(&self) -> &'a F {
        self.fetches
    }

    /// Pairs the predicates of one conjunction with a fetch description.
    pub(crate) fn new(filters: &'a [Filter], fetches: &'a F) -> (conjunction: Self)
        requires
            is_conjunction(filters@),
        ensures
            conjunction@ == filters@,
            conjunction.spec_fetches() == fetches,
    {
        Conjunction { filters, fetches }
    }

    /// The fetch description that this view is paired with.
    #[verifier::when_used_as_spec(spec_fetches)]
    pub fn fetches(&self) -> (fetches: &'a F)
        ensures
            fetches == self.spec_fetches(),
    {
        self.fetches
    }

    /// The predicates of the conjunction, in their sorted order.
    pub fn as_slice(&self) -> (filters: &'a [Filter])
        ensures
            filters@ == self@,
            is_conjunction(filters@),
    {
        proof {
            use_type_invariant(self);
        }
        self.filters
    }

    /// Whether `archetype` is matched: `fetch_archetype`, the outcome of the
    /// fetch description's own inclusion test on the same archetype, must
    /// hold, and the archetype must have the component of every predicate
    /// but the `Without` ones, of which it must have none.
    pub fn includes_archetype(&self, archetype: &Archetype, fetch_archetype: bool) -> (included:
        bool)
        ensures
            included == (fetch_archetype && structural_match(self@, components_of(*archetype))),
    {
        let ids: Vec<ComponentId> = components(archetype);
        self.includes_components(ids.as_slice(), fetch_archetype)
    }

    /// Whether an archetype that has the components `components`, in any
    /// order, is matched, given the outcome `fetch_archetype` of the fetch
    /// description's own inclusion test on it.
    pub fn includes_components(&self, components: &[ComponentId], fetch_archetype: bool) -> (included:
        bool)
        ensures
            included == (fetch_archetype && structural_match(self@, components@)),
    {
        proof {
            use_type_invariant(self);
            lemma_structural_match(self.filters@, components@);
        }
        let (inclusive, exclusive) = filters(self.filters);
        let include_filter: bool = inclusive.all_included(components);
        let exclude_filter: bool = exclusive.any_excluded(components);
        fetch_archetype && include_filter && !exclude_filter
    }
}

/// One conjunction of a query filter, bound to a tick window: the view that
/// tests entities.
pub struct TickConjunction<'a> {
    filters: &'a [Filter],
    last_run: u32,
    this_run: u32,
}

impl<'a> View for TickConjunction<'a> {
    type V = Seq<Filter>;

    closed spec fn view(&self) -> Seq<Filter> {
        self.filters@
    }
}

impl<'a> TickConjunction<'a> {
    #[verifier::type_invariant]
    spec fn well_formed(&self) -> bool {
        is_conjunction(self.filters@)
    }

    /// The tick at which the query last ran: the open end of the window.
    pub closed spec fn last_run(&self) -> u32 {
        self.last_run
    }

    /// The tick of the current run: the closed end of the window.
    pub closed spec fn this_run(&self) -> u32 {
        self.this_run
    }

    /// Binds the predicates of one conjunction to a tick window.
    pub(crate) fn new(filters: &'a [Filter], last_run: u32, this_run: u32) -> (conjunction: Self)
        requires
            is_conjunction(filters@),
        ensures
            conjunction@ == filters@,
            conjunction.last_run() == last_run,
            conjunction.this_run() == this_run,
    {
        TickConjunction { filters, last_run, this_run }
    }

    /// Whether `entity` is matched: its archetype must satisfy the structure
    /// of the conjunction, and the ticks of the components that the `Changed`
    /// and `Added` predicates name must lie in the window. The ticks are not
    /// looked at where the structure fails.
    pub fn within_tick(&self, entity: &EntityTicks) -> (within: bool)
        ensures
            within == (structural_match(self@, entity.components()) && temporal_match(
                self@,
                *entity,
                self.last_run(),
                self.this_run(),
            )),
    {
        proof {
            use_type_invariant(self);
            lemma_structural_match(self.filters@, entity.components());
            lemma_temporal_match(self.filters@, *entity, self.last_run, self.this_run);
        }
        let archetype: &[ComponentId] = entity.archetype();
        let (inclusive, exclusive) = filters(self.filters);
        let include_filter: bool = inclusive.all_included(archetype);
        let exclude_filter: bool = exclusive.any_excluded(archetype);
        if !include_filter || exclude_filter {
            return false;
        }
        let (changed, added) = tick_filters(self.filters);
        let changed: bool = changed.within_tick(entity, self.last_run, self.this_run);
        let added: bool = added.within_tick(entity, self.last_run, self.this_run);
        changed && added
    }
}

/// The archetype test is a function of its inputs: two evaluations on the
/// same conjunction, archetype and fetch outcome give the same answer.
pub proof fn lemma_includes_archetype_repeats<F>(
    conjunction: &Conjunction<'_, F>,
    archetype: &Archetype,
    fetch_archetype: bool,
    first: bool,
    second: bool,
)
    requires
        call_ensures(
            Conjunction::<F>::includes_archetype,
            (conjunction, archetype, fetch_archetype),
            first,
        ),
        call_ensures(
            Conjunction::<F>::includes_archetype,
            (conjunction, archetype, fetch_archetype),
            second,
        ),
    ensures
        first == second,
{
}

/// The entity test is a function of its inputs: two evaluations on the same
/// conjunction, window and entity give the same answer.
pub proof fn lemma_within_tick_repeats(
    conjunction: &TickConjunction<'_>,
    entity: &EntityTicks,
    first: bool,
    second: bool,
)
    requires
        call_ensures(TickConjunction::within_tick, (conjunction, entity), first),
        call_ensures(TickConjunction::within_tick, (conjunction, entity), second),
    ensures
        first == second,
{
}

} // verus!
