use vstd::prelude::*;

verus! {

/// A generational handle to an entity: the slot index plus the generation the
/// slot had when the entity was spawned. A handle whose generation no longer
/// matches its slot refers to a destroyed entity.
#[derive(Clone, Copy, Debug, PartialEq, Eq, Structural, Hash)]
pub struct EntityId {
    pub index: u32,
    pub generation: u32,
}

impl EntityId {
    pub fn new(index: u32, generation: u32) -> (id: EntityId)
        ensures
            id.index == index,
            id.generation == generation,
    {
        EntityId { index, generation }
    }
}

} // verus!
