use query_filters::filters::duplicates_in;
use query_filters::partition::{first_of_kind, lower_bound};
use query_filters::sorting::sort_filters;
use query_filters::{AndFilter, AndFilters, ComponentId, Filter, FilterKind, Filters, OrFilters};

fn with(index: usize) -> AndFilter {
    AndFilter::With(ComponentId::new(index))
}

fn without(index: usize) -> AndFilter {
    AndFilter::Without(ComponentId::new(index))
}

fn changed(index: usize) -> AndFilter {
    AndFilter::Changed(ComponentId::new(index))
}

fn added(index: usize) -> AndFilter {
    AndFilter::Added(ComponentId::new(index))
}

fn or_filters(conjunctions: Vec<Vec<AndFilter>>) -> OrFilters {
    OrFilters(conjunctions.into_iter().map(AndFilters).collect())
}

fn packed(filters: &[AndFilter]) -> Vec<Filter> {
    filters.iter().map(|f| Filter::from(*f)).collect()
}

fn rows(filters: &Filters) -> Vec<Vec<Filter>> {
    filters.conjunctions(&()).iter().map(|c| c.as_slice().to_vec()).collect()
}

#[test]
fn same_component_twice_is_refused() {
    assert!(Filters::new(or_filters(vec![vec![with(5), changed(5)]])).is_none());
    assert!(Filters::new(or_filters(vec![vec![with(5), with(7)]])).is_some());
}

#[test]
fn same_component_twice_is_refused_whatever_the_kinds() {
    let makers: [fn(usize) -> AndFilter; 4] = [with, without, changed, added];
    for first in makers {
        for second in makers {
            let input = or_filters(vec![vec![first(5), with(2), second(5)]]);
            assert!(Filters::new(input).is_none());
            let input = or_filters(vec![vec![first(5), with(2), second(6)]]);
            assert!(Filters::new(input).is_some());
        }
    }
}

#[test]
fn one_bad_conjunction_refuses_the_whole_filter() {
    let input = or_filters(vec![vec![with(1)], vec![with(2), without(2)], vec![with(3)]]);
    assert!(Filters::new(input).is_none());
    let input = or_filters(vec![vec![with(1)], vec![with(2), without(3)], vec![with(3)]]);
    assert!(Filters::new(input).is_some());
}

#[test]
fn the_same_component_in_two_conjunctions_is_accepted() {
    let input = or_filters(vec![vec![with(5)], vec![without(5)]]);
    let filters = Filters::new(input).unwrap();
    assert_eq!(rows(&filters), vec![packed(&[with(5)]), packed(&[without(5)])]);
}

#[test]
fn conjunctions_are_sorted_by_kind_then_component() {
    let input =
        or_filters(vec![vec![without(9), with(3), added(2), with(1), changed(7), without(4)]]);
    let filters = Filters::new(input).unwrap();
    let expected = packed(&[with(1), with(3), changed(7), added(2), without(4), without(9)]);
    assert_eq!(rows(&filters), vec![expected]);
}

#[test]
fn conjunctions_keep_their_order_and_their_bounds() {
    let input = or_filters(vec![vec![with(2), with(1)], vec![], vec![without(3)], vec![]]);
    let filters = Filters::new(input).unwrap();
    let expected =
        vec![packed(&[with(1), with(2)]), Vec::new(), packed(&[without(3)]), Vec::new()];
    assert_eq!(rows(&filters), expected);
    assert_eq!(filters.conjunctions(&()).len(), 4);
    assert_eq!(filters.tick_conjunctions(0, 1).len(), 4);
}

#[test]
fn an_empty_filter_has_no_conjunction() {
    let filters = Filters::new(or_filters(Vec::new())).unwrap();
    assert!(filters.conjunctions(&()).is_empty());
    assert!(filters.tick_conjunctions(3, 4).is_empty());
}

#[test]
fn the_order_in_which_predicates_are_written_does_not_matter() {
    let one = Filters::new(or_filters(vec![vec![with(1), changed(4), without(2)]])).unwrap();
    let other = Filters::new(or_filters(vec![vec![without(2), with(1), changed(4)]])).unwrap();
    assert_eq!(one, other);
    assert_eq!(one.clone(), one);
}

#[test]
fn the_trusted_path_keeps_conjunctions_as_written() {
    let written = vec![vec![with(1), with(3), changed(2), added(7), without(0)], vec![added(4)]];
    let trusted = Filters::new_unchecked(or_filters(written.clone()));
    let checked = Filters::new(or_filters(written.clone())).unwrap();
    assert_eq!(trusted, checked);
    assert_eq!(rows(&trusted), vec![packed(&written[0]), packed(&written[1])]);
}

#[test]
fn try_from_reports_the_refusal() {
    assert!(Filters::try_from(or_filters(vec![vec![with(5), changed(5)]])).is_err());
    let built = Filters::try_from(or_filters(vec![vec![with(5), with(7)]]));
    assert_eq!(built.ok(), Filters::new(or_filters(vec![vec![with(5), with(7)]])));
}

#[test]
fn conjunctions_carry_the_fetch_description() {
    let fetch = String::from("fetch");
    let filters = Filters::new(or_filters(vec![vec![with(1)], vec![with(2)]])).unwrap();
    for conjunction in filters.conjunctions(&fetch) {
        assert!(std::ptr::eq(conjunction.fetches(), &fetch));
    }
}

#[test]
fn duplicates_are_found_by_component() {
    assert!(!duplicates_in(&[]));
    assert!(!duplicates_in(&packed(&[with(1)])));
    assert!(!duplicates_in(&packed(&[with(1), changed(2), without(3)])));
    assert!(duplicates_in(&packed(&[with(1), changed(2), without(1)])));
    assert!(duplicates_in(&packed(&[with(1), with(1)])));
    assert!(duplicates_in(&packed(&[added(7), with(1), with(3), changed(7)])));
}

#[test]
fn sorting_orders_by_word_and_keeps_every_predicate() {
    let mut filters = packed(&[without(1), with(9), with(9), added(0), changed(3), with(2)]);
    sort_filters(&mut filters);
    assert_eq!(
        filters,
        packed(&[with(2), with(9), with(9), changed(3), added(0), without(1)])
    );
    let mut empty: Vec<Filter> = Vec::new();
    sort_filters(&mut empty);
    assert!(empty.is_empty());
}

#[test]
fn lower_bound_is_the_insertion_point() {
    let filters = packed(&[with(1), with(3), changed(7), without(4)]);
    assert_eq!(lower_bound(&filters, 0), 0);
    assert_eq!(lower_bound(&filters, 1), 0);
    assert_eq!(lower_bound(&filters, 2), 1);
    assert_eq!(lower_bound(&filters, 3), 1);
    assert_eq!(lower_bound(&filters, 4), 2);
    assert_eq!(lower_bound(&filters, 0x4000_0007), 2);
    assert_eq!(lower_bound(&filters, 0x4000_0008), 3);
    assert_eq!(lower_bound(&filters, u32::MAX), 4);
    assert_eq!(lower_bound(&[], 5), 0);
}

#[test]
fn blocks_begin_where_their_kind_begins() {
    let kinds = [FilterKind::With, FilterKind::Changed, FilterKind::Added, FilterKind::Without];
    let filters = packed(&[with(1), with(3), changed(7), added(2), added(5), without(4)]);
    let starts: Vec<usize> = kinds.iter().map(|k| first_of_kind(&filters, *k)).collect();
    assert_eq!(starts, vec![0, 2, 3, 5]);
    let filters = packed(&[changed(7), without(4)]);
    let starts: Vec<usize> = kinds.iter().map(|k| first_of_kind(&filters, *k)).collect();
    assert_eq!(starts, vec![0, 0, 1, 1]);
    let starts: Vec<usize> = kinds.iter().map(|k| first_of_kind(&[], *k)).collect();
    assert_eq!(starts, vec![0, 0, 0, 0]);
}

#[test]
fn the_greatest_identifier_stays_in_its_block() {
    let top = (1usize << 30) - 1;
    let pairs = [(with(top), changed(0)), (changed(top), added(0)), (added(top), without(0))];
    for (high, low) in pairs {
        let filters = Filters::new(or_filters(vec![vec![low, high]])).unwrap();
        let row = rows(&filters).remove(0);
        assert_eq!(row, packed(&[high, low]));
        assert_eq!(first_of_kind(&row, row[0].kind()), 0);
        assert_eq!(first_of_kind(&row, row[1].kind()), 1);
        assert_eq!(lower_bound(&row, row[0].component), 0);
        assert_eq!(lower_bound(&row, row[1].component), 1);
    }
}

#[test]
fn every_block_is_contiguous_and_ascends_by_component() {
    let kinds = [FilterKind::With, FilterKind::Changed, FilterKind::Added, FilterKind::Without];
    let makers: [fn(usize) -> AndFilter; 4] = [with, changed, added, without];
    // Every conjunction over the components 0..size, each component given one
    // of the four kinds, written in descending order of component.
    for size in 0..=5usize {
        for choice in 0..4usize.pow(size as u32) {
            let written: Vec<AndFilter> =
                (0..size).rev().map(|c| makers[(choice >> (2 * c)) & 3](c)).collect();
            let filters = Filters::new(or_filters(vec![written.clone()])).unwrap();
            let row = rows(&filters).remove(0);
            assert_eq!(row.len(), size);
            let mut bounds: Vec<usize> = kinds.iter().map(|k| first_of_kind(&row, *k)).collect();
            bounds.push(row.len());
            assert_eq!(bounds[0], 0);
            for (k, kind) in kinds.iter().enumerate() {
                assert!(bounds[k] <= bounds[k + 1]);
                let block = &row[bounds[k]..bounds[k + 1]];
                let count = written.iter().filter(|f| Filter::from(**f).kind() == *kind).count();
                assert_eq!(block.len(), count);
                assert!(block.iter().all(|f| f.kind() == *kind));
                assert!(block.windows(2).all(|w| w[0].id().index() < w[1].id().index()));
            }
        }
    }
}
