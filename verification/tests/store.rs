use bevy_ecs::change_detection::{DetectChangesMut, MAX_CHANGE_AGE};
use bevy_ecs::component::{Component, ComponentId as StoreId, TableStorage};
use bevy_ecs::world::World;
use query_filters::archetype::components;
use query_filters::{
    AndFilter, AndFilters, ComponentId, ComponentTicks, EntityTicks, Filters, OrFilters,
};

struct C0;
struct C1;
struct C2;
struct C3;
struct C4;
struct C5;
struct C6;
struct C7;
struct C8;
struct C9;

impl Component for C0 {
    type Storage = TableStorage;
}

impl Component for C1 {
    type Storage = TableStorage;
}

impl Component for C2 {
    type Storage = TableStorage;
}

impl Component for C3 {
    type Storage = TableStorage;
}

impl Component for C4 {
    type Storage = TableStorage;
}

impl Component for C5 {
    type Storage = TableStorage;
}

impl Component for C6 {
    type Storage = TableStorage;
}

impl Component for C7 {
    type Storage = TableStorage;
}

impl Component for C8 {
    type Storage = TableStorage;
}

impl Component for C9 {
    type Storage = TableStorage;
}

/// A world with ten component types, and the identifier of each.
fn world() -> (World, Vec<ComponentId>) {
    let mut world = World::new();
    let ids = vec![
        world.init_component::<C0>(),
        world.init_component::<C1>(),
        world.init_component::<C2>(),
        world.init_component::<C3>(),
        world.init_component::<C4>(),
        world.init_component::<C5>(),
        world.init_component::<C6>(),
        world.init_component::<C7>(),
        world.init_component::<C8>(),
        world.init_component::<C9>(),
    ];
    let ids = ids.into_iter().map(|id| ComponentId::new(id.index())).collect();
    (world, ids)
}

fn build(conjunctions: Vec<Vec<AndFilter>>) -> Filters {
    Filters::new(OrFilters(conjunctions.into_iter().map(AndFilters).collect())).unwrap()
}

#[test]
fn the_store_numbers_components_from_zero() {
    let (_, ids) = world();
    let expected: Vec<ComponentId> = (0..10).map(ComponentId::new).collect();
    assert_eq!(ids, expected);
}

#[test]
fn components_of_an_archetype_of_the_store() {
    let (mut world, ids) = world();
    let entity = world.spawn((C5, C1, C3)).id();
    let bare = world.spawn_empty().id();
    let mut listed = components(world.entity(entity).archetype());
    listed.sort_by_key(|id| id.index());
    assert_eq!(listed, vec![ids[1], ids[3], ids[5]]);
    assert!(components(world.entity(bare).archetype()).is_empty());
}

#[test]
fn archetype_of_the_store_with_what_is_asked_and_without_what_is_refused() {
    let (mut world, ids) = world();
    let entity = world.spawn((C1, C3, C5)).id();
    let entity = world.entity(entity);
    let archetype = entity.archetype();
    let with = |i: usize| AndFilter::With(ids[i]);
    let without = |i: usize| AndFilter::Without(ids[i]);
    let filters = build(vec![
        vec![with(1), with(3), without(9)],
        vec![with(1), without(3), without(9)],
        vec![with(1), with(3), with(9)],
        vec![AndFilter::Changed(ids[5]), AndFilter::Added(ids[1])],
        vec![AndFilter::Changed(ids[4])],
        vec![],
    ]);
    let included = |fetch: bool| -> Vec<bool> {
        filters.conjunctions(&()).iter().map(|c| c.includes_archetype(archetype, fetch)).collect()
    };
    assert_eq!(included(true), vec![true, false, false, true, false, true]);
    assert_eq!(included(false), vec![false; 6]);
    assert_eq!(included(true), included(true));
}

#[test]
fn any_conjunction_may_include_an_archetype_of_the_store() {
    let (mut world, ids) = world();
    let entity = world.spawn((C1, C3, C5)).id();
    let other = world.spawn((C2, C9)).id();
    let filters = build(vec![
        vec![AndFilter::With(ids[2])],
        vec![AndFilter::With(ids[1]), AndFilter::Without(ids[9])],
    ]);
    let entity = world.entity(entity);
    let other = world.entity(other);
    let views = filters.conjunctions(&());
    let each: Vec<bool> =
        views.iter().map(|c| c.includes_archetype(entity.archetype(), true)).collect();
    assert_eq!(each, vec![false, true]);
    assert!(each.iter().any(|included| *included));
    let each: Vec<bool> =
        views.iter().map(|c| c.includes_archetype(other.archetype(), true)).collect();
    assert_eq!(each, vec![true, false]);
    let filters = build(vec![
        vec![AndFilter::With(ids[2])],
        vec![AndFilter::With(ids[1]), AndFilter::Without(ids[5])],
    ]);
    let views = filters.conjunctions(&());
    assert!(!views.iter().any(|c| c.includes_archetype(entity.archetype(), true)));
}

#[test]
fn the_greatest_age_is_that_of_the_store() {
    assert_eq!(query_filters::tick::MAX_CHANGE_AGE, MAX_CHANGE_AGE);
}

#[test]
fn change_ticks_of_an_entity_of_the_store() {
    let (mut world, ids) = world();
    world.increment_change_tick();
    let first_run = world.read_change_tick();
    world.increment_change_tick();
    let entity = world.spawn((C1, C5)).id();
    world.increment_change_tick();
    let second_run = world.read_change_tick();
    world.increment_change_tick();
    world.get_mut::<C5>(entity).unwrap().set_changed();
    world.increment_change_tick();
    let third_run = world.read_change_tick();

    let entity = world.entity(entity);
    let listed = components(entity.archetype());
    let recorded = |id: &ComponentId| {
        entity.get_change_ticks_by_id(StoreId::new(id.index())).unwrap()
    };
    let ticks = listed
        .iter()
        .map(recorded)
        .map(|t| ComponentTicks::new(t.added_tick().get(), t.last_changed_tick().get()))
        .collect();
    let snapshot = EntityTicks::new(listed, ticks).unwrap();

    let filters = build(vec![
        vec![AndFilter::Changed(ids[5])],
        vec![AndFilter::Added(ids[5])],
        vec![AndFilter::Changed(ids[1])],
        vec![AndFilter::Added(ids[1]), AndFilter::Changed(ids[5])],
        vec![AndFilter::Changed(ids[5]), AndFilter::Without(ids[1])],
    ]);
    let windows = [
        // Seen from the second run, the later change of `C5` is not inside
        // the window.
        (first_run, second_run, [false, true, true, false, false]),
        (second_run, third_run, [true, false, false, false, false]),
        (first_run, third_run, [true, true, true, true, false]),
        (third_run, third_run, [false, false, false, false, false]),
    ];
    for (last_run, this_run, expected) in windows {
        let views = filters.tick_conjunctions(last_run.get(), this_run.get());
        let within: Vec<bool> = views.iter().map(|v| v.within_tick(&snapshot)).collect();
        assert_eq!(within, expected);
        let one = recorded(&ids[1]);
        let five = recorded(&ids[5]);
        let by_the_store = [
            five.is_changed(last_run, this_run),
            five.is_added(last_run, this_run),
            one.is_changed(last_run, this_run),
            one.is_added(last_run, this_run) && five.is_changed(last_run, this_run),
            false,
        ];
        assert_eq!(within, by_the_store);
    }
}
