//! Filter matching for dynamic queries over an entity/component store.
//!
//! A query filter is a disjunction of conjunctions of per-component
//! predicates. Each predicate is packed into one word so that sorting by the
//! raw word groups a conjunction by predicate kind. A conjunction is matched
//! in two steps: the components of an archetype against its presence and
//! absence predicates, then the change ticks of one entity against its
//! `Changed` and `Added` predicates.
//!
//! - [`filter`]: the packed predicate and its encoding.
//! - [`partition`]: the sorted layout of a conjunction and its kind blocks.
//! - [`sorting`]: bringing a written conjunction into that layout.
//! - [`filters`]: building and storing a whole query filter.
//! - [`matcher`]: the structural and the temporal test.
//! - [`tick`]: the wrapping clock and the change ticks of an entity.
//! - [`archetype`], [`bitset`]: what is relied on of the store's archetypes
//!   and of the marker set.
pub mod archetype;
pub mod bitset;
pub mod filter;
pub mod filters;
pub mod matcher;
pub mod partition;
pub mod sorting;
pub mod tick;

pub use filter::{AndFilter, ComponentId, Filter, FilterKind};
pub use filters::{AndFilters, Filters, OrFilters};
pub use matcher::{Conjunction, TickConjunction};
pub use tick::{ComponentTicks, EntityTicks};
