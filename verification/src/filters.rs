//! The filter of a query: a disjunction of conjunctions, built once and kept
//! in one flat buffer with the end of each conjunction marked.
use crate::filter::{AndFilter, Filter};
use crate::matcher::{Conjunction, TickConjunction};
use crate::partition::{distinct_ids, is_conjunction, sorted};
use crate::sorting::{
    ascending, lemma_distinct_ids_of_same_filters, lemma_sorted_is_unique, sort_filters,
};
use std::collections::HashSet;
use vstd::prelude::*;
use vstd::slice::slice_subrange;

verus! {

/// The predicates of one conjunction as a query is written: in any order.
#[derive(Clone, Debug, PartialEq, Eq)]
pub struct AndFilters(pub Vec<AndFilter>);

/// A query filter as it is written: any of its conjunctions may hold.
#[derive(Clone, Debug, PartialEq, Eq)]
pub struct OrFilters(pub Vec<AndFilters>);

impl View for AndFilters {
    type V = Seq<AndFilter>;

    open spec fn view(&self) -> Seq<AndFilter> {
        self.0@
    }
}

impl View for OrFilters {
    type V = Seq<Seq<AndFilter>>;

    open spec fn view(&self) -> Seq<Seq<AndFilter>> {
        Seq::new(self.0@.len(), |c: int| self.0@[c]@)
    }
}

/// The packed forms of the predicates of `conjunction`, in their order.
pub open spec fn encode_all(conjunction: Seq<AndFilter>) -> Seq<Filter> {
    Seq::new(conjunction.len(), |i: int| conjunction[i].encoded())
}

/// Whether every predicate of every conjunction of `filters` is about a
/// component that fits the encoding.
pub open spec fn all_encodable(filters: Seq<Seq<AndFilter>>) -> bool {
    forall|c: int, i: int|
        0 <= c < filters.len() && 0 <= i < filters[c].len() ==> (
        #[trigger] filters[c][i]).encodable()
}

/// Whether no two predicates of `conjunction` are about the same component,
/// whatever their kinds.
pub open spec fn distinct_components(conjunction: Seq<AndFilter>) -> bool {
    forall|i: int, j: int|
        0 <= i < j < conjunction.len() ==> conjunction[i].id() != conjunction[j].id()
}

/// Whether a filter can be built from `written`: none of its conjunctions
/// names a component twice.
pub open spec fn buildable(written: Seq<Seq<AndFilter>>) -> bool {
    forall|c: int| 0 <= c < written.len() ==> distinct_components(#[trigger] written[c])
}

/// Whether `rows` are the conjunctions built from `written`: as many, in the
/// same order, each laid out as a conjunction and holding the packed forms of
/// the predicates written for it, each as often as it was written.
pub open spec fn built_from(rows: Seq<Seq<Filter>>, written: Seq<Seq<AndFilter>>) -> bool {
    &&& rows.len() == written.len()
    &&& forall|c: int|
        0 <= c < written.len() ==> {
            &&& is_conjunction(#[trigger] rows[c])
            &&& rows[c].to_multiset() == encode_all(written[c]).to_multiset()
        }
}

/// Where the conjunction `row` begins in the flat buffer: where the one
/// before it ends.
spec fn row_start(ends: Seq<usize>, row: int) -> int {
    if row == 0 {
        0
    } else {
        ends[row - 1] as int
    }
}

/// The conjunction `row` of the flat buffer `data` with the marks `ends`.
spec fn row_of(ends: Seq<usize>, data: Seq<Filter>, row: int) -> Seq<Filter> {
    data.subrange(row_start(ends, row), ends[row] as int)
}

/// Whether the marks `ends` cut the buffer `data` into consecutive rows that
/// cover it.
spec fn jagged(ends: Seq<usize>, data: Seq<Filter>) -> bool {
    &&& forall|row: int|
        0 <= row < ends.len() ==> row_start(ends, row) <= #[trigger] ends[row] <= data.len()
    &&& row_start(ends, ends.len() as int) == data.len()
}

/// The rows that the marks `ends` cut out of the buffer `data`.
spec fn rows_of(ends: Seq<usize>, data: Seq<Filter>) -> Seq<Seq<Filter>> {
    Seq::new(ends.len(), |row: int| row_of(ends, data, row))
}

/// A query filter: conjunctions of packed predicates, of which any may hold.
/// Each conjunction is sorted by word and names no component twice.
#[derive(Debug, PartialEq, Eq)]
pub struct Filters {
    ends: Vec<usize>,
    data: Vec<Filter>,
}

impl View for Filters {
    type V = Seq<Seq<Filter>>;

    closed spec fn view(&self) -> Seq<Seq<Filter>> {
        rows_of(self.ends@, self.data@)
    }
}

impl Clone for Filters {
    fn clone(&self) -> (copy: Filters)
        ensures
            copy@ == self@,
    {
        proof {
            use_type_invariant(self);
        }
        let ends: Vec<usize> = self.ends.clone();
        let data: Vec<Filter> = self.data.clone();
        proof {
            assert(ends@ =~= self.ends@);
            assert(data@ =~= self.data@);
        }
        Filters { ends, data }
    }
}

/// Appends `row` to the buffer and marks its end.
fn add_row(ends: &mut Vec<usize>, data: &mut Vec<Filter>, row: Vec<Filter>)
    requires
        jagged(old(ends)@, old(data)@),
    ensures
        jagged(final(ends)@, final(data)@),
        final(ends)@.len() == old(ends)@.len() + 1,
        rows_of(final(ends)@, final(data)@) == rows_of(old(ends)@, old(data)@).push(row@),
{
    let ghost added = row@;
    let mut row = row;
    data.append(&mut row);
    ends.push(data.len());
    proof {
        let before = rows_of(old(ends)@, old(data)@);
        let after = rows_of(ends@, data@);
        assert forall|r: int| 0 <= r < after.len() implies after[r] == before.push(added)[r] by {
            if r < old(ends)@.len() {
                assert(row_start(ends@, r) == row_start(old(ends)@, r));
                assert(ends@[r] == old(ends)@[r]);
                assert(row_of(ends@, data@, r) =~= row_of(old(ends)@, old(data)@, r));
            } else {
                assert(row_of(ends@, data@, r) =~= added);
            }
        }
        assert(after =~= before.push(added));
    }
}

/// Whether two predicates of `filters` are about the same component.
pub fn duplicates_in(filters: &[Filter]) -> (duplicates: bool)
    ensures
        duplicates == !distinct_ids(filters@),
{
    broadcast use vstd::std_specs::hash::group_hash_axioms;

    let mut encountered: HashSet<usize> = HashSet::with_capacity(filters.len());
    let mut i: usize = 0;
    while i < filters.len()
        invariant
            0 <= i <= filters.len(),
            forall|j: int| 0 <= j < i ==> encountered@.contains(#[trigger] filters@[j].spec_id().0),
            forall|index: usize|
                encountered@.contains(index) ==> exists|j: int|
                    0 <= j < i && #[trigger] filters@[j].spec_id().0 == index,
            forall|j: int, k: int|
                0 <= j < k < i ==> filters@[j].spec_id() != filters@[k].spec_id(),
        decreases filters.len() - i,
    {
        let index: usize = filters[i].id().index();
        if !encountered.insert(index) {
            proof {
                let j = choose|j: int| 0 <= j < i && #[trigger] filters@[j].spec_id().0 == index;
                assert(filters@[j].spec_id() == filters@[i as int].spec_id());
            }
            return true;
        }
        i += 1;
    }
    false
}

impl Filters {
    #[verifier::type_invariant]
    spec fn well_formed(&self) -> bool {
        &&& jagged(self.ends@, self.data@)
        &&& forall|row: int|
            0 <= row < self.ends@.len() ==> is_conjunction(
                #[trigger] row_of(self.ends@, self.data@, row),
            )
    }

    /// Builds a query filter from conjunctions that the caller knows to be
    /// laid out already: each sorted by kind, then component, and naming no
    /// component twice. Nothing is checked or reordered.
    pub fn new_unchecked(dsl_value: OrFilters) -> (filters: Filters)
        requires
            all_encodable(dsl_value@),
            forall|c: int|
                0 <= c < dsl_value@.len() ==> is_conjunction(encode_all(#[trigger] dsl_value@[c])),
        ensures
            filters@.len() == dsl_value@.len(),
            forall|c: int|
                0 <= c < dsl_value@.len() ==> #[trigger] filters@[c] == encode_all(dsl_value@[c]),
    {
        let mut ends: Vec<usize> = Vec::with_capacity(dsl_value.0.len());
        let mut data: Vec<Filter> = Vec::new();
        let mut c: usize = 0;
        while c < dsl_value.0.len()
            invariant
                0 <= c <= dsl_value.0.len(),
                all_encodable(dsl_value@),
                forall|c: int|
                    0 <= c < dsl_value@.len() ==> is_conjunction(
                        encode_all(#[trigger] dsl_value@[c]),
                    ),
                jagged(ends@, data@),
                ends@.len() == c,
                forall|r: int|
                    0 <= r < c ==> #[trigger] rows_of(ends@, data@)[r] == encode_all(dsl_value@[r]),
            decreases dsl_value.0.len() - c,
        {
            proof {
                lemma_conjunction_encodable(dsl_value@, c as int);
                assert(dsl_value@[c as int] == dsl_value.0@[c as int]@);
            }
            let row: Vec<Filter> = encode_row(&dsl_value.0[c]);
            add_row(&mut ends, &mut data, row);
            c += 1;
        }
        proof {
            assert forall|row: int| 0 <= row < ends@.len() implies is_conjunction(
                #[trigger] row_of(ends@, data@, row),
            ) by {
                assert(rows_of(ends@, data@)[row] == encode_all(dsl_value@[row]));
            }
        }
        Filters { ends, data }
    }

    /// Builds a query filter: packs the predicates of each conjunction, sorts
    /// them by word, and refuses the whole filter when a conjunction names a
    /// component twice, whatever the kinds of the two predicates.
    pub fn new(dsl_value: OrFilters) -> (filters: Option<Filters>)
        requires
            all_encodable(dsl_value@),
        ensures
            filters is Some <==> buildable(dsl_value@),
            filters matches Some(built) ==> built_from(built@, dsl_value@),
    {
        let mut ends: Vec<usize> = Vec::with_capacity(dsl_value.0.len());
        let mut data: Vec<Filter> = Vec::new();
        let mut c: usize = 0;
        while c < dsl_value.0.len()
            invariant
                0 <= c <= dsl_value.0.len(),
                all_encodable(dsl_value@),
                jagged(ends@, data@),
                ends@.len() == c,
                forall|r: int| 0 <= r < c ==> distinct_components(#[trigger] dsl_value@[r]),
                forall|r: int|
                    0 <= r < c ==> {
                        &&& is_conjunction(#[trigger] rows_of(ends@, data@)[r])
                        &&& rows_of(ends@, data@)[r].to_multiset() == encode_all(
                            dsl_value@[r],
                        ).to_multiset()
                    },
            decreases dsl_value.0.len() - c,
        {
            proof {
                lemma_conjunction_encodable(dsl_value@, c as int);
                assert(dsl_value@[c as int] == dsl_value.0@[c as int]@);
            }
            let mut row: Vec<Filter> = encode_row(&dsl_value.0[c]);
            let ghost written = dsl_value@[c as int];
            let ghost packed = row@;
            sort_filters(&mut row);
            if duplicates_in(row.as_slice()) {
                proof {
                    if distinct_components(written) {
                        lemma_encoding_keeps_components(written);
                        lemma_distinct_ids_of_same_filters(packed, row@);
                    }
                }
                return None;
            }
            proof {
                lemma_distinct_ids_of_same_filters(row@, packed);
                lemma_encoding_keeps_components(written);
                lemma_ascending_distinct_is_sorted(row@);
            }
            add_row(&mut ends, &mut data, row);
            c += 1;
        }
        proof {
            assert forall|row: int| 0 <= row < ends@.len() implies is_conjunction(
                #[trigger] row_of(ends@, data@, row),
            ) by {
                assert(is_conjunction(rows_of(ends@, data@)[row]));
            }
        }
        Some(Filters { ends, data })
    }

    /// Builds a query filter as [`Self::new`] does, and reports a refusal as
    /// an error.
    pub fn try_from(value: OrFilters) -> (filters: Result<Filters, ()>)
        requires
            all_encodable(value@),
        ensures
            filters is Ok <==> buildable(value@),
            filters matches Ok(built) ==> built_from(built@, value@),
    {
        match Filters::new(value) {
            Some(built) => Ok(built),
            None => Err(()),
        }
    }

    /// The conjunctions of the filter, in their order, each paired with the
    /// fetch description `fetches`.
    pub fn conjunctions<'a, F>(&'a self, fetches: &'a F) -> (views: Vec<Conjunction<'a, F>>)
        ensures
            views@.len() == self@.len(),
            forall|c: int|
                0 <= c < self@.len() ==> (#[trigger] views@[c])@ == self@[c] && views@[c].fetches()
                    == fetches,
    {
        proof {
            use_type_invariant(self);
        }
        let mut views: Vec<Conjunction<'a, F>> = Vec::with_capacity(self.ends.len());
        let mut start: usize = 0;
        let mut c: usize = 0;
        while c < self.ends.len()
            invariant
                0 <= c <= self.ends.len(),
                self.well_formed(),
                start == row_start(self.ends@, c as int),
                views@.len() == c,
                forall|r: int|
                    0 <= r < c ==> (#[trigger] views@[r])@ == row_of(self.ends@, self.data@, r)
                        && views@[r].fetches() == fetches,
            decreases self.ends.len() - c,
        {
            let end: usize = self.ends[c];
            proof {
                assert(is_conjunction(row_of(self.ends@, self.data@, c as int)));
            }
            let row: &'a [Filter] = slice_subrange(self.data.as_slice(), start, end);
            views.push(Conjunction::new(row, fetches));
            start = end;
            c += 1;
        }
        views
    }

    /// The conjunctions of the filter, in their order, each bound to the tick
    /// window from `last_run` to `this_run`.
    pub fn tick_conjunctions(&self, last_run: u32, this_run: u32) -> (views: Vec<
        TickConjunction<'_>,
    >)
        ensures
            views@.len() == self@.len(),
            forall|c: int|
                0 <= c < self@.len() ==> {
                    &&& (#[trigger] views@[c])@ == self@[c]
                    &&& views@[c].last_run() == last_run
                    &&& views@[c].this_run() == this_run
                },
    {
        proof {
            use_type_invariant(self);
        }
        let mut views: Vec<TickConjunction<'_>> = Vec::with_capacity(self.ends.len());
        let mut start: usize = 0;
        let mut c: usize = 0;
        while c < self.ends.len()
            invariant
                0 <= c <= self.ends.len(),
                self.well_formed(),
                start == row_start(self.ends@, c as int),
                views@.len() == c,
                forall|r: int|
                    0 <= r < c ==> {
                        &&& (#[trigger] views@[r])@ == row_of(self.ends@, self.data@, r)
                        &&& views@[r].last_run() == last_run
                        &&& views@[r].this_run() == this_run
                    },
            decreases self.ends.len() - c,
        {
            let end: usize = self.ends[c];
            proof {
                assert(is_conjunction(row_of(self.ends@, self.data@, c as int)));
            }
            let row: &[Filter] = slice_subrange(self.data.as_slice(), start, end);
            views.push(TickConjunction::new(row, last_run, this_run));
            start = end;
            c += 1;
        }
        views
    }
}

/// What is written determines what is built: two filters built from the
/// same written filter have the same conjunctions.
pub proof fn lemma_built_is_determined(
    one: Seq<Seq<Filter>>,
    other: Seq<Seq<Filter>>,
    written: Seq<Seq<AndFilter>>,
)
    requires
        built_from(one, written),
        built_from(other, written),
    ensures
        one == other,
{
    assert forall|c: int| 0 <= c < one.len() implies one[c] == other[c] by {
        assert(is_conjunction(one[c]) && is_conjunction(other[c]));
        lemma_sorted_is_unique(one[c], other[c]);
    }
    assert(one =~= other);
}

/// Packs the predicates of one conjunction, in the order in which they are
/// written.
fn encode_row(conjunction: &AndFilters) -> (row: Vec<Filter>)
    requires
        forall|i: int| 0 <= i < conjunction@.len() ==> (#[trigger] conjunction@[i]).encodable(),
    ensures
        row@ == encode_all(conjunction@),
{
    let mut row: Vec<Filter> = Vec::with_capacity(conjunction.0.len());
    let mut i: usize = 0;
    while i < conjunction.0.len()
        invariant
            0 <= i <= conjunction.0.len(),
            forall|i: int| 0 <= i < conjunction@.len() ==> (#[trigger] conjunction@[i]).encodable(),
            row@.len() == i,
            forall|j: int| 0 <= j < i ==> #[trigger] row@[j] == conjunction@[j].encoded(),
        decreases conjunction.0.len() - i,
    {
        proof {
            assert(conjunction@[i as int].encodable());
        }
        row.push(Filter::from(conjunction.0[i]));
        i += 1;
    }
    proof {
        assert(row@ =~= encode_all(conjunction@));
    }
    row
}

/// Where every predicate of a filter is encodable, so is every predicate of
/// each of its conjunctions.
proof fn lemma_conjunction_encodable(filters: Seq<Seq<AndFilter>>, c: int)
    requires
        all_encodable(filters),
        0 <= c < filters.len(),
    ensures
        forall|i: int| 0 <= i < filters[c].len() ==> (#[trigger] filters[c][i]).encodable(),
{
}

/// Packing keeps the component of each predicate, so the packed predicates
/// have distinct identifiers exactly when the written ones have.
proof fn lemma_encoding_keeps_components(conjunction: Seq<AndFilter>)
    requires
        forall|i: int| 0 <= i < conjunction.len() ==> (#[trigger] conjunction[i]).encodable(),
    ensures
        distinct_ids(encode_all(conjunction)) <==> distinct_components(conjunction),
{
    let packed = encode_all(conjunction);
    assert forall|i: int| 0 <= i < conjunction.len() implies (#[trigger] packed[i]).spec_id()
        == conjunction[i].id() by {
        assert(conjunction[i].encodable());
        crate::filter::lemma_decode_encode(conjunction[i].kind(), conjunction[i].id());
    }
    if distinct_ids(packed) {
        assert forall|i: int, j: int| 0 <= i < j < conjunction.len() implies conjunction[i].id()
            != conjunction[j].id() by {
            assert(packed[i].spec_id() != packed[j].spec_id());
        }
    }
    if distinct_components(conjunction) {
        assert forall|i: int, j: int| 0 <= i < j < packed.len() implies packed[i].spec_id()
            != packed[j].spec_id() by {
            assert(conjunction[i].id() != conjunction[j].id());
        }
    }
}

/// Ascending words of predicates with distinct identifiers ascend strictly.
proof fn lemma_ascending_distinct_is_sorted(filters: Seq<Filter>)
    requires
        ascending(filters),
        distinct_ids(filters),
    ensures
        sorted(filters),
{
    assert forall|i: int, j: int| 0 <= i < j < filters.len() implies filters[i].component
        < filters[j].component by {
        assert(filters[i].component <= filters[j].component);
        assert(filters[i].spec_id() != filters[j].spec_id());
    }
}

} // verus!
