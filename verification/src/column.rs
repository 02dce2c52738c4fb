use vstd::prelude::*;

use crate::entity::EntityId;
use crate::world::World;

verus! {

/// One component table of the structure-of-arrays storage: slot `i` holds the
/// component of the entity living in slot `i` of a `World`, if it has one.
/// Every access goes through the world's liveness check, so a stale handle
/// never reads or writes the component of the slot's new occupant.
pub struct ComponentColumn<T> {
    slots: Vec<Option<T>>,
}

impl<T> View for ComponentColumn<T> {
    type V = Seq<Option<T>>;

    closed spec fn view(&self) -> Seq<Option<T>> {
        self.slots@
    }
}

impl<T> ComponentColumn<T> {
    pub fn new() -> (c: Self)
        ensures
            c@.len() == 0,
    {
        ComponentColumn { slots: Vec::new() }
    }

    /// Rebuilds a column from a table taken earlier (see `slots`).
    pub fn from_slots(slots: Vec<Option<T>>) -> (c: Self)
        ensures
            c@ == slots@,
    {
        ComponentColumn { slots }
    }

    /// The raw per-slot table, for snapshots.
    pub fn slots(&self) -> (s: &Vec<Option<T>>)
        ensures
            s@ == self@,
    {
        &self.slots
    }

    pub fn len(&self) -> (n: usize)
        ensures
            n == self@.len(),
    {
        self.slots.len()
    }

    /// Brings the column in line with a world right after `spawn_entity` handed
    /// out `id`: a reused slot is emptied, an appended slot gets an empty entry.
    pub fn on_spawn(&mut self, world: &World, id: EntityId)
        requires
            world.wf(),
            old(self)@.len() == world@.len() || old(self)@.len() + 1 == world@.len(),
            old(self)@.len() == world@.len() ==> (id.index as int) < old(self)@.len(),
        ensures
            final(self)@ == if old(self)@.len() < world@.len() {
                old(self)@.push(None)
            } else {
                old(self)@.update(id.index as int, None)
            },
    {
        if self.slots.len() < world.slot_count() {
            self.slots.push(None);
        } else {
            self.slots.set(id.index as usize, None);
        }
    }

    /// Empties the slot of an entity that is being destroyed.
    pub fn clear(&mut self, id: EntityId)
        requires
            (id.index as int) < old(self)@.len(),
        ensures
            final(self)@ == old(self)@.update(id.index as int, None),
    {
        self.slots.set(id.index as usize, None);
    }

    /// Gives a live entity the component (replacing any previous one); a stale
    /// handle changes nothing.
    pub fn set(&mut self, world: &World, id: EntityId, value: T)
        requires
            world.wf(),
            old(self)@.len() == world@.len(),
        ensures
            final(self)@ == if world@.is_alive(id) {
                old(self)@.update(id.index as int, Some(value))
            } else {
                old(self)@
            },
    {
        if world.is_alive(id) {
            self.slots.set(id.index as usize, Some(value));
        }
    }

    pub fn get(&self, world: &World, id: EntityId) -> (r: Option<&T>)
        requires
            world.wf(),
            self@.len() == world@.len(),
        ensures
            r is Some <==> world@.is_alive(id) && self@[id.index as int] is Some,
            r matches Some(v) ==> self@[id.index as int] == Some(*v),
    {
        if !world.is_alive(id) {
            return None;
        }
        self.slots[id.index as usize].as_ref()
    }

    pub fn get_mut(&mut self, world: &World, id: EntityId) -> (r: Option<&mut T>)
        requires
            world.wf(),
            old(self)@.len() == world@.len(),
        ensures
            r is Some <==> world@.is_alive(id) && old(self)@[id.index as int] is Some,
            r is Some ==> *r.unwrap() == old(self)@[id.index as int]->0 && final(self)@ == old(
                self,
            )@.update(id.index as int, Some(*final(r.unwrap()))),
            r is None ==> final(self)@ == old(self)@,
    {
        if !world.is_alive(id) {
            return None;
        }
        self.slots[id.index as usize].as_mut()
    }

    /// Takes the component away from a live entity; a stale handle changes nothing.
    pub fn remove(&mut self, world: &World, id: EntityId)
        requires
            world.wf(),
            old(self)@.len() == world@.len(),
        ensures
            final(self)@ == if world@.is_alive(id) {
                old(self)@.update(id.index as int, None)
            } else {
                old(self)@
            },
    {
        if world.is_alive(id) {
            self.slots.set(id.index as usize, None);
        }
    }

    /// The live entities that have this component, in slot order.
    pub fn entities_with(&self, world: &World) -> (r: Vec<EntityId>)
        requires
            world.wf(),
            self@.len() == world@.len(),
        ensures
            forall|k: int| 0 <= k < r@.len() ==> world@.is_alive(#[trigger] r@[k]) && self@[r@[k].index as int] is Some,
            forall|id: EntityId| world@.is_alive(id) && self@[id.index as int] is Some ==> r@.contains(id),
            forall|a: int, b: int| 0 <= a < b < r@.len() ==> #[trigger] r@[a].index < #[trigger] r@[b].index,
    {
        let ids = world.iter_entities();
        let mut r: Vec<EntityId> = Vec::new();
        let mut k: usize = 0;
        while k < ids.len()
            invariant
                world.wf(),
                self@.len() == world@.len(),
                ids@ == world@.live_ids(),
                forall|j: int| 0 <= j < ids@.len() ==> world@.is_alive(#[trigger] ids@[j]),
                forall|a: int, b: int| 0 <= a < b < ids@.len() ==> #[trigger] ids@[a].index < #[trigger] ids@[b].index,
                forall|id: EntityId| world@.is_alive(id) ==> ids@.contains(id),
                k <= ids.len(),
                forall|j: int| 0 <= j < r@.len() ==> world@.is_alive(#[trigger] r@[j]) && self@[r@[j].index as int] is Some,
                forall|j: int| 0 <= j < k && self@[ids@[j].index as int] is Some ==> r@.contains(#[trigger] ids@[j]),
                forall|a: int, b: int| 0 <= a < b < r@.len() ==> #[trigger] r@[a].index < #[trigger] r@[b].index,
                forall|j: int| 0 <= j < r@.len() ==> exists|m: int| 0 <= m < k && #[trigger] r@[j] == ids@[m],
            decreases ids.len() - k,
        {
            let id = ids[k];
            assert(world@.is_alive(ids@[k as int]));
            assert((id.index as int) < world@.len());
            if self.slots[id.index as usize].is_some() {
                let ghost before = r@;
                r.push(id);
                assert forall|a: int, b: int| 0 <= a < b < r@.len() implies #[trigger] r@[a].index < #[trigger] r@[b].index by {
                    if b == r@.len() - 1 {
                        let m = choose|m: int| 0 <= m < k && before[a] == ids@[m];
                        assert(r@[a] == ids@[m]);
                    }
                }
                assert forall|j: int| 0 <= j < r@.len() implies exists|m: int| 0 <= m < k + 1 && #[trigger] r@[j] == ids@[m] by {
                    if j < r@.len() - 1 {
                        let m = choose|m: int| 0 <= m < k && before[j] == ids@[m];
                        assert(r@[j] == ids@[m]);
                    } else {
                        assert(r@[j] == ids@[k as int]);
                    }
                }
                assert forall|j: int| 0 <= j < k + 1 && self@[ids@[j].index as int] is Some implies r@.contains(#[trigger] ids@[j]) by {
                    if j < k {
                        let m = choose|m: int| 0 <= m < before.len() && before[m] == ids@[j];
                        assert(r@[m] == ids@[j]);
                    } else {
                        assert(r@[r@.len() - 1] == ids@[j]);
                    }
                }
            }
            k = k + 1;
        }
        proof {
            assert forall|id: EntityId| world@.is_alive(id) && self@[id.index as int] is Some implies r@.contains(id) by {
                let j = choose|j: int| 0 <= j < ids@.len() && ids@[j] == id;
                assert(self@[ids@[j].index as int] is Some);
            }
        }
        r
    }
}

} // verus!
