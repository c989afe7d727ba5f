//! The wrapping logical clock of change detection, and the change ticks that
//! the store records for the components of one entity.
use crate::filter::ComponentId;
use bevy_ecs::component::Tick;
use vstd::prelude::*;

verus! {

/// The greatest age that change detection tells apart; older ticks count as
/// this old. Equal to `bevy_ecs::change_detection::MAX_CHANGE_AGE`.
pub const MAX_CHANGE_AGE: u32 = 3_258_167_296;

/// How many ticks lie between `then` and `now` on the wrapping 32-bit clock.
pub open spec fn ticks_since(now: u32, then: u32) -> int {
    if now >= then {
        now - then
    } else {
        now - then + 0x1_0000_0000
    }
}

/// The age of `then` as seen at `now`, capped at [`MAX_CHANGE_AGE`].
pub open spec fn age(now: u32, then: u32) -> int {
    if ticks_since(now, then) <= MAX_CHANGE_AGE {
        ticks_since(now, then)
    } else {
        MAX_CHANGE_AGE as int
    }
}

/// Whether `tick` is newer than `last_run`, as seen at `this_run`: its age is
/// strictly smaller than that of `last_run`.
pub open spec fn newer_than(tick: u32, last_run: u32, this_run: u32) -> bool {
    age(this_run, last_run) > age(this_run, tick)
}

/// `bevy_ecs::component::Tick::is_newer_than`, on the raw values of the three
/// ticks. The method takes the two wrapping distances from `this_run`, caps
/// each at `MAX_CHANGE_AGE`, and compares them.
#[verifier::external_body]
pub(crate) fn tick_is_newer_than(tick: u32, last_run: u32, this_run: u32) -> (newer: bool)
    ensures
        newer == newer_than(tick, last_run, this_run),
{
    Tick::new(tick).is_newer_than(Tick::new(last_run), Tick::new(this_run))
}

/// The clock value `tick` moved forward by `by` ticks, wrapping at 2^32.
pub open spec fn advance(tick: u32, by: u32) -> u32 {
    if tick + by < 0x1_0000_0000 {
        (tick + by) as u32
    } else {
        (tick + by - 0x1_0000_0000) as u32
    }
}

/// The window test sees only distances on the clock: moving the three ticks
/// forward by the same amount, across the wrap or not, leaves it unchanged.
pub proof fn lemma_newer_than_wraps(tick: u32, last_run: u32, this_run: u32, by: u32)
    ensures
        ticks_since(advance(this_run, by), advance(tick, by)) == ticks_since(this_run, tick),
        newer_than(advance(tick, by), advance(last_run, by), advance(this_run, by)) == newer_than(
            tick,
            last_run,
            this_run,
        ),
{
}

/// While the window is no longer than [`MAX_CHANGE_AGE`], a tick is newer
/// exactly when it is strictly closer to `this_run` than `last_run` is: the
/// window excludes `last_run` itself and includes `this_run`.
pub proof fn lemma_newer_than_window(tick: u32, last_run: u32, this_run: u32)
    requires
        ticks_since(this_run, last_run) <= MAX_CHANGE_AGE,
    ensures
        newer_than(tick, last_run, this_run) <==> ticks_since(this_run, tick) < ticks_since(
            this_run,
            last_run,
        ),
        !newer_than(last_run, last_run, this_run),
        last_run != this_run ==> newer_than(this_run, last_run, this_run),
{
}

/// When a component was added to an entity and when it was last changed.
#[derive(Clone, Copy, Debug, PartialEq, Eq, Structural)]
pub struct ComponentTicks {
    pub added: u32,
    pub changed: u32,
}

impl ComponentTicks {
    /// The ticks of a component added at `added` and last changed at `changed`.
    pub fn new(added: u32, changed: u32) -> (ticks: ComponentTicks)
        ensures
            ticks == (ComponentTicks { added, changed }),
    {
        ComponentTicks { added, changed }
    }

    /// The tick at which the component was added.
    pub fn added_tick(&self) -> (tick: u32)
        ensures
            tick == self.added,
    {
        self.added
    }

    /// The tick at which the component was last changed.
    pub fn last_changed_tick(&self) -> (tick: u32)
        ensures
            tick == self.changed,
    {
        self.changed
    }
}

/// The position of the first occurrence of `id` in `ids`, or the length of
/// `ids` where it does not occur.
pub open spec fn first_position(ids: Seq<ComponentId>, id: ComponentId) -> int
    decreases ids.len(),
{
    if ids.len() == 0 {
        0
    } else if ids[0] == id {
        0
    } else {
        1 + first_position(ids.drop_first(), id)
    }
}

/// `first_position` is a position of `id` before which `id` does not occur,
/// or the length where `id` occurs nowhere.
pub proof fn lemma_first_position(ids: Seq<ComponentId>, id: ComponentId)
    ensures
        0 <= first_position(ids, id) <= ids.len(),
        first_position(ids, id) < ids.len() <==> ids.contains(id),
        first_position(ids, id) < ids.len() ==> ids[first_position(ids, id)] == id,
        forall|i: int| 0 <= i < first_position(ids, id) ==> ids[i] != id,
    decreases ids.len(),
{
    if ids.len() == 0 {
    } else if ids[0] == id {
        assert(ids.contains(id));
    } else {
        let rest = ids.drop_first();
        lemma_first_position(rest, id);
        let p = first_position(rest, id);
        if p < rest.len() {
            assert(ids[p + 1] == rest[p]);
            assert(ids.contains(id));
        }
        if ids.contains(id) {
            let k = choose|k: int| 0 <= k < ids.len() && ids[k] == id;
            assert(rest[k - 1] == ids[k]);
            assert(rest.contains(id));
        }
        assert forall|i: int| 0 <= i < first_position(ids, id) implies ids[i] != id by {
            if i > 0 {
                assert(rest[i - 1] == ids[i]);
            }
        }
    }
}

/// A snapshot of one entity: the components of its archetype, in the order
/// in which the store lists them, and the change ticks of each.
pub struct EntityTicks {
    components: Vec<ComponentId>,
    ticks: Vec<ComponentTicks>,
}

impl EntityTicks {
    #[verifier::type_invariant]
    spec fn well_formed(&self) -> bool {
        self.components.len() == self.ticks.len()
    }

    /// The components of the entity's archetype.
    pub closed spec fn components(&self) -> Seq<ComponentId> {
        self.components@
    }

    /// The change ticks of the entity's components, each at the position of
    /// its component in [`Self::components`].
    pub closed spec fn ticks(&self) -> Seq<ComponentTicks> {
        self.ticks@
    }

    /// The change ticks that the entity records for `id`: those of the first
    /// listing of `id` among its components, or `None` where the entity does
    /// not have the component.
    pub open spec fn change_ticks(&self, id: ComponentId) -> Option<ComponentTicks> {
        if self.components().contains(id) {
            Some(self.ticks()[first_position(self.components(), id)])
        } else {
            None
        }
    }

    /// A snapshot that lists `components` with the change ticks `ticks`, one
    /// for each component, in the same order. `None` when the two lists
    /// differ in length.
    pub fn new(components: Vec<ComponentId>, ticks: Vec<ComponentTicks>) -> (entity: Option<
        EntityTicks,
    >)
        ensures
            entity is Some <==> components.len() == ticks.len(),
            entity matches Some(e) ==> e.components() == components@ && e.ticks() == ticks@,
    {
        if components.len() == ticks.len() {
            Some(EntityTicks { components, ticks })
        } else {
            None
        }
    }

    /// The components of the entity's archetype.
    pub fn archetype(&self) -> (ids: &[ComponentId])
        ensures
            ids@ == self.components(),
            self.ticks().len() == self.components().len(),
    {
        proof {
            use_type_invariant(self);
        }
        self.components.as_slice()
    }

    /// The change ticks of the component `id` on this entity.
    pub fn get_change_ticks_by_id(&self, id: ComponentId) -> (ticks: Option<ComponentTicks>)
        ensures
            ticks == self.change_ticks(id),
    {
        proof {
            use_type_invariant(self);
            lemma_first_position(self.components@, id);
        }
        let mut i: usize = 0;
        while i < self.components.len()
            invariant
                0 <= i <= self.components.len(),
                self.components.len() == self.ticks.len(),
                forall|j: int| 0 <= j < i ==> self.components@[j] != id,
            decreases self.components.len() - i,
        {
            if self.components[i] == id {
                proof {
                    lemma_first_position(self.components@, id);
                    assert(self.components@.contains(id));
                }
                return Some(self.ticks[i]);
            }
            i += 1;
        }
        None
    }
}

} // verus!
