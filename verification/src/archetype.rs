//! What this library relies on of `bevy_ecs::archetype::Archetype`, the set
//! of components that a group of entities shares.
use crate::filter::ComponentId;
use bevy_ecs::archetype::Archetype;
use vstd::prelude::*;

verus! {

/// `bevy_ecs::archetype::Archetype`, carried through as it is: nothing is
/// known of a value but what the items below say.
#[verifier::external_type_specification]
#[verifier::external_body]
pub struct ExArchetype(bevy_ecs::archetype::Archetype);

/// The indices of the components of an archetype, in the order in which the
/// archetype lists them.
pub uninterp spec fn component_indices(archetype: Archetype) -> Seq<usize>;

/// The components of an archetype, in the order in which it lists them.
pub open spec fn components_of(archetype: Archetype) -> Seq<ComponentId> {
    component_indices(archetype).map_values(|index: usize| ComponentId(index))
}

/// `Archetype::components`, collected: the identifiers that the archetype's
/// iterator hands out, in its order, each as the library's identifier with
/// the same index. What is taken on trust is that the listing is a matter of
/// the archetype alone: an archetype never changes the components it has.
#[verifier::external_body]
pub(crate) fn archetype_components(archetype: &Archetype) -> (components: Vec<ComponentId>)
    ensures
        components@.map_values(|id: ComponentId| id.0) == component_indices(*archetype),
{
    let indices = archetype.components().map(bevy_ecs::component::ComponentId::index);
    indices.map(ComponentId::new).collect()
}

/// The components of `archetype`, in the order in which it lists them.
pub fn components(archetype: &Archetype) -> (components: Vec<ComponentId>)
    ensures
        components@ == components_of(*archetype),
{
    let components: Vec<ComponentId> = archetype_components(archetype);
    proof {
        let indices = components@.map_values(|id: ComponentId| id.0);
        assert forall|i: int| 0 <= i < components@.len() implies components@[i] == components_of(
            *archetype,
        )[i] by {
            assert(indices[i] == components@[i].0);
        }
        assert(components@ =~= components_of(*archetype));
    }
    components
}

} // verus!
