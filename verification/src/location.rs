use vstd::prelude::*;

verus! {

/// Where in the archetype storage an entity lives.
#[derive(Debug, Clone, Copy, PartialEq, Eq, Structural)]
pub struct EntityLocation {
    pub archetype_id: u32,
    pub chunk_index: u32,
    pub row: u32,
}

impl EntityLocation {
    /// The "nowhere" location (all fields `u32::MAX`).
    pub open spec fn spec_invalid() -> EntityLocation {
        EntityLocation { archetype_id: u32::MAX, chunk_index: u32::MAX, row: u32::MAX }
    }

    /// The "nowhere" location (all fields `u32::MAX`).
    pub fn invalid() -> (r: EntityLocation)
        ensures
            r == Self::spec_invalid(),
    {
        EntityLocation { archetype_id: u32::MAX, chunk_index: u32::MAX, row: u32::MAX }
    }

    pub open spec fn spec_is_valid(self) -> bool {
        self.archetype_id != u32::MAX
    }

    /// Whether this names an archetype (the archetype id is not `u32::MAX`).
    pub fn is_valid(self) -> (r: bool)
        ensures
            r == self.spec_is_valid(),
    {
        self.archetype_id != u32::MAX
    }
}

} // verus!
