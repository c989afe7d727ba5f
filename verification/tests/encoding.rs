use query_filters::filter::{ID_LIMIT, ID_MASK, KIND_OFFSET};
use query_filters::{AndFilter, ComponentId, Filter, FilterKind};

const KINDS: [FilterKind; 4] =
    [FilterKind::With, FilterKind::Changed, FilterKind::Added, FilterKind::Without];

#[test]
fn round_trip_of_every_kind() {
    let ids = [0usize, 1, 5, 1023, 0x2000_0000, ID_LIMIT - 1];
    for kind in KINDS {
        for index in ids {
            let filter = Filter::new(kind, ComponentId::new(index));
            assert_eq!(filter.kind(), kind);
            assert_eq!(filter.id(), ComponentId::new(index));
            assert_eq!(filter.id().index(), index);
        }
    }
}

#[test]
fn encoding_puts_kind_above_identifier() {
    assert_eq!(Filter::new(FilterKind::With, ComponentId::new(5)).component, 5);
    assert_eq!(Filter::new(FilterKind::Changed, ComponentId::new(5)).component, 0x4000_0005);
    assert_eq!(Filter::new(FilterKind::Added, ComponentId::new(5)).component, 0x8000_0005);
    assert_eq!(Filter::new(FilterKind::Without, ComponentId::new(5)).component, 0xc000_0005);
    assert_eq!(
        Filter::new(FilterKind::Without, ComponentId::new(ID_LIMIT - 1)).component,
        u32::MAX
    );
}

#[test]
fn encoding_constants() {
    assert_eq!(KIND_OFFSET, 30);
    assert_eq!(ID_MASK, 0x3fff_ffff);
    assert_eq!(ID_LIMIT, 1 << 30);
}

#[test]
fn every_word_decodes_and_encodes_back() {
    let words =
        [0u32, 1, 0x3fff_ffff, 0x4000_0000, 0x7fff_ffff, 0x8000_0000, 0xc000_0000, u32::MAX];
    for component in words {
        let filter = Filter { component };
        assert!(filter.id().index() < ID_LIMIT);
        assert_eq!(Filter::new(filter.kind(), filter.id()), filter);
    }
}

#[test]
fn decoding_reads_the_two_high_bits_as_kind() {
    assert_eq!(Filter { component: 0x3fff_ffff }.kind(), FilterKind::With);
    assert_eq!(Filter { component: 0x4000_0000 }.kind(), FilterKind::Changed);
    assert_eq!(Filter { component: 0x7fff_ffff }.kind(), FilterKind::Changed);
    assert_eq!(Filter { component: 0x8000_0000 }.kind(), FilterKind::Added);
    assert_eq!(Filter { component: 0xc000_0000 }.kind(), FilterKind::Without);
    assert_eq!(Filter { component: 0x7fff_ffff }.id(), ComponentId::new(0x3fff_ffff));
}

#[test]
fn kind_ordinals() {
    assert_eq!(FilterKind::from_u32(0), FilterKind::With);
    assert_eq!(FilterKind::from_u32(1), FilterKind::Changed);
    assert_eq!(FilterKind::from_u32(2), FilterKind::Added);
    assert_eq!(FilterKind::from_u32(3), FilterKind::Without);
    for (ordinal, kind) in KINDS.into_iter().enumerate() {
        assert_eq!(kind.to_u32() as usize, ordinal);
        assert_eq!(FilterKind::from_u32(kind.to_u32()), kind);
    }
}

#[test]
fn word_order_is_kind_then_identifier() {
    let ids = [0usize, 3, 7, ID_LIMIT - 1];
    let mut all = Vec::new();
    for kind in KINDS {
        for index in ids {
            all.push((kind.to_u32(), index, Filter::new(kind, ComponentId::new(index))));
        }
    }
    for a in &all {
        for b in &all {
            assert_eq!(a.2.component < b.2.component, (a.0, a.1) < (b.0, b.1));
            assert_eq!(a.2 < b.2, (a.0, a.1) < (b.0, b.1));
        }
    }
}

#[test]
fn written_predicates_pack_to_their_kind() {
    let id = ComponentId::new(9);
    assert_eq!(Filter::from(AndFilter::With(id)), Filter::new(FilterKind::With, id));
    assert_eq!(Filter::from(AndFilter::Without(id)), Filter::new(FilterKind::Without, id));
    assert_eq!(Filter::from(AndFilter::Changed(id)), Filter::new(FilterKind::Changed, id));
    assert_eq!(Filter::from(AndFilter::Added(id)), Filter::new(FilterKind::Added, id));
}
