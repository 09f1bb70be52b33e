//! Entity identifiers, as the engine packs them into 64 bits.

use vstd::prelude::*;

verus! {

/// The identifier of an entity: the engine's `Entity`, as `Entity::to_bits` gives it.
/// The engine assigns it; an index is used again after its entity is gone, under
/// another generation, so the whole value is what names an entity.
#[derive(Clone, Copy, Debug, PartialEq, Eq, Structural)]
pub struct EntityId {
    pub bits: u64,
}

/// Calls bevy's `Entity::from_bits` and then `Entity::index` on what it returns.
/// `from_bits` takes the high half of `bits` as the generation and the low half as
/// the index, and `index` hands that index back, so the contract claims the low 32
/// bits of `bits`. Neither of the two panics. Verus takes this contract on trust.
#[verifier::external_body]
fn index_of_bits(bits: u64) -> (index: u32)
    ensures
        index as int == (bits as int) % 0x1_0000_0000,
{
    bevy::ecs::entity::Entity::from_bits(bits).index()
}

impl EntityId {
    /// The index half of the identifier: its low 32 bits.
    pub open spec fn index_spec(self) -> int {
        (self.bits as int) % 0x1_0000_0000
    }

    /// The entity's index, which is what the diagnostics print.
    pub fn index(self) -> (index: u32)
        ensures
            index as int == self.index_spec(),
    {
        index_of_bits(self.bits)
    }
}

} // verus!
