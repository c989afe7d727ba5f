//! The packed encoding of one predicate: a kind and a component identifier in
//! a single 32-bit word, kind in the two high bits, identifier in the low 30.
use vstd::prelude::*;

verus! {

/// Number of low bits of the word that hold the component identifier.
pub const KIND_OFFSET: u32 = 30;

/// Mask selecting the identifier bits of the word.
pub const ID_MASK: u32 = 0x3fff_ffff;

/// Exclusive upper bound of the identifiers that the encoding can hold.
pub const ID_LIMIT: usize = 0x4000_0000;

/// Identifies a component type. Handed out densely by the component store.
#[derive(Clone, Copy, Debug, PartialEq, Eq, Structural, Hash)]
pub struct ComponentId(pub usize);

impl ComponentId {
    /// Wraps the index that the store gave to a component type.
    pub fn new(index: usize) -> (id: ComponentId)
        ensures
            id == ComponentId(index),
    {
        ComponentId(index)
    }

    /// The index of the component type.
    pub fn index(self) -> (index: usize)
        ensures
            index == self.0,
    {
        self.0
    }

    /// Whether the identifier fits the bits that the encoding reserves for it.
    pub open spec fn encodable(self) -> bool {
        self.0 < ID_LIMIT
    }
}

/// What a predicate asks of its component.
#[derive(Clone, Copy, Debug, PartialEq, Eq, Structural)]
pub enum FilterKind {
    /// The component is present.
    With,
    /// The component is present and was changed inside the tick window.
    Changed,
    /// The component is present and was added inside the tick window.
    Added,
    /// The component is absent.
    Without,
}

impl FilterKind {
    /// The position of the kind in the sort order: `With < Changed < Added < Without`.
    pub open spec fn ordinal(self) -> int {
        match self {
            FilterKind::With => 0,
            FilterKind::Changed => 1,
            FilterKind::Added => 2,
            FilterKind::Without => 3,
        }
    }

    /// The kind with the given ordinal. Ordinals above 3 stand for no kind.
    pub open spec fn of_ordinal(ordinal: int) -> FilterKind {
        if ordinal == 0 {
            FilterKind::With
        } else if ordinal == 1 {
            FilterKind::Changed
        } else if ordinal == 2 {
            FilterKind::Added
        } else {
            FilterKind::Without
        }
    }

    /// The kind whose ordinal is `ordinal`.
    pub fn from_u32(ordinal: u32) -> (kind: FilterKind)
        requires
            ordinal < 4,
        ensures
            kind.ordinal() == ordinal,
            kind == FilterKind::of_ordinal(ordinal as int),
    {
        if ordinal == 0 {
            FilterKind::With
        } else if ordinal == 1 {
            FilterKind::Changed
        } else if ordinal == 2 {
            FilterKind::Added
        } else {
            FilterKind::Without
        }
    }

    /// The ordinal of the kind, as a machine word.
    pub fn to_u32(self) -> (ordinal: u32)
        ensures
            ordinal == self.ordinal(),
    {
        match self {
            FilterKind::With => 0,
            FilterKind::Changed => 1,
            FilterKind::Added => 2,
            FilterKind::Without => 3,
        }
    }

    /// Whether a predicate of this kind asks for its component to be present.
    pub open spec fn requires_presence(self) -> bool {
        self != FilterKind::Without
    }
}

/// One predicate as a query is written: a kind applied to a component.
#[derive(Clone, Copy, Debug, PartialEq, Eq, Structural)]
pub enum AndFilter {
    With(ComponentId),
    Without(ComponentId),
    Changed(ComponentId),
    Added(ComponentId),
}

impl AndFilter {
    /// The kind of the predicate.
    pub open spec fn kind(self) -> FilterKind {
        match self {
            AndFilter::With(_) => FilterKind::With,
            AndFilter::Without(_) => FilterKind::Without,
            AndFilter::Changed(_) => FilterKind::Changed,
            AndFilter::Added(_) => FilterKind::Added,
        }
    }

    /// The component that the predicate is about.
    pub open spec fn id(self) -> ComponentId {
        match self {
            AndFilter::With(id) => id,
            AndFilter::Without(id) => id,
            AndFilter::Changed(id) => id,
            AndFilter::Added(id) => id,
        }
    }

    /// Whether the predicate's component fits the encoding.
    pub open spec fn encodable(self) -> bool {
        self.id().encodable()
    }

    /// The packed form of the predicate.
    pub open spec fn encoded(self) -> Filter {
        Filter::encode(self.kind(), self.id())
    }
}

/// One predicate, packed: the kind's ordinal in the two most significant bits
/// of `component`, the component identifier in the remaining thirty.
#[derive(Clone, Copy, Debug, PartialEq, Eq, Structural, PartialOrd, Ord)]
pub struct Filter {
    pub component: u32,
}

impl Filter {
    /// The component that the predicate is about.
    pub open spec fn spec_id(&self) -> ComponentId {
        ComponentId((self.component % 0x4000_0000) as usize)
    }

    /// The kind of the predicate.
    pub open spec fn spec_kind(&self) -> FilterKind {
        FilterKind::of_ordinal(self.component as int / 0x4000_0000)
    }

    /// The word that packs `kind` and `id`.
    pub open spec fn encode(kind: FilterKind, id: ComponentId) -> Filter {
        Filter { component: (kind.ordinal() * 0x4000_0000 + id.0) as u32 }
    }

    /// The component that the predicate is about.
    #[verifier::when_used_as_spec(spec_id)]
    pub fn id(&self) -> (id: ComponentId)
        ensures
            id == self.spec_id(),
            id.encodable(),
    {
        let word: u32 = self.component;
        let masked: u32 = word & ID_MASK;
        assert(word & 0x3fff_ffff == word % 0x4000_0000) by (bit_vector);
        ComponentId::new(masked as usize)
    }

    /// The kind of the predicate.
    #[verifier::when_used_as_spec(spec_kind)]
    pub fn kind(&self) -> (kind: FilterKind)
        ensures
            kind == self.spec_kind(),
    {
        let word: u32 = self.component;
        let unmasked: u32 = word >> KIND_OFFSET;
        assert(word >> 30 == word / 0x4000_0000) by (bit_vector);
        FilterKind::from_u32(unmasked)
    }

    /// Packs a kind and a component identifier into one word.
    pub fn new(kind: FilterKind, id: ComponentId) -> (filter: Filter)
        requires
            id.encodable(),
        ensures
            filter == Filter::encode(kind, id),
            filter.spec_kind() == kind,
            filter.spec_id() == id,
    {
        let ordinal: u32 = kind.to_u32();
        let index: u32 = id.index() as u32;
        assert((ordinal << 30) | index == ordinal * 0x4000_0000 + index) by (bit_vector)
            requires
                ordinal < 4,
                index < 0x4000_0000,
        ;
        let kind_mask: u32 = ordinal << KIND_OFFSET;
        let component: u32 = kind_mask | index;
        Filter { component }
    }

    /// Packs a predicate as a query is written.
    pub fn from(value: AndFilter) -> (filter: Filter)
        requires
            value.encodable(),
        ensures
            filter == value.encoded(),
    {
        match value {
            AndFilter::With(id) => Filter::new(FilterKind::With, id),
            AndFilter::Without(id) => Filter::new(FilterKind::Without, id),
            AndFilter::Changed(id) => Filter::new(FilterKind::Changed, id),
            AndFilter::Added(id) => Filter::new(FilterKind::Added, id),
        }
    }
}

/// Decoding undoes encoding: the word that packs an encodable identifier with
/// a kind gives back that kind and that identifier.
pub proof fn lemma_decode_encode(kind: FilterKind, id: ComponentId)
    requires
        id.encodable(),
    ensures
        Filter::encode(kind, id).spec_kind() == kind,
        Filter::encode(kind, id).spec_id() == id,
{
}

/// Encoding undoes decoding: every word is the packing of its own kind and
/// identifier, and its identifier is encodable.
pub proof fn lemma_encode_decode(filter: Filter)
    ensures
        filter.spec_id().encodable(),
        Filter::encode(filter.spec_kind(), filter.spec_id()) == filter,
        filter.component == filter.spec_kind().ordinal() * 0x4000_0000 + filter.spec_id().0,
{
}

/// The order of the raw words is the lexicographic order of kind ordinal,
/// then component identifier.
pub proof fn lemma_word_order_is_lexicographic(a: Filter, b: Filter)
    ensures
        a.component < b.component <==> (a.spec_kind().ordinal() < b.spec_kind().ordinal() || (
        a.spec_kind() == b.spec_kind() && a.spec_id().0 < b.spec_id().0)),
        a.component == b.component <==> (a.spec_kind() == b.spec_kind() && a.spec_id()
            == b.spec_id()),
{
    lemma_encode_decode(a);
    lemma_encode_decode(b);
}

} // verus!
