//! Scene entities as plain values.
use vstd::prelude::*;

verus! {

/// A scene entity: the slot it occupies and the generation of that slot.
///
/// The slot index is stable for the entity's whole life and is the tie-break key
/// when siblings are ordered.
#[derive(Clone, Copy, Debug, PartialEq, Eq, Hash, Structural)]
pub struct Entity {
    pub index: u32,
    pub generation: u32,
}

/// The 64-bit form of an entity: the generation in the high half, the slot below.
pub open spec fn entity_bits(e: Entity) -> u64 {
    (e.generation as int * 0x1_0000_0000 + e.index as int) as u64
}

impl Entity {
    pub fn new(index: u32, generation: u32) -> (r: Entity)
        ensures
            r.index == index,
            r.generation == generation,
    {
        Entity { index, generation }
    }

    /// The 64-bit form of this entity, used as a map key.
    pub fn to_bits(self) -> (r: u64)
        ensures
            r == entity_bits(self),
    {
        (self.generation as u64) * 0x1_0000_0000 + (self.index as u64)
    }
}

} // verus!
