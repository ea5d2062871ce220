use vstd::prelude::*;
use crate::maps::{id_list_map_contents, id_list_map_get, id_list_map_insert, id_list_map_len, id_list_map_new, IdListMap};

verus! {

/// Maps sorted component-id lists to archetype ids.
pub struct ArchetypeRegistry {
    lookup: IdListMap,
}

impl ArchetypeRegistry {
    /// The registered component-id lists and their archetype ids.
    pub closed spec fn spec_map(&self) -> Map<Seq<u32>, u32> {
        id_list_map_contents(self.lookup)
    }

    pub fn new() -> (r: Self)
        ensures
            r.spec_map() == Map::<Seq<u32>, u32>::empty(),
    {
        Self { lookup: id_list_map_new() }
    }

    /// Record that `components` is stored in archetype `archetype_id`.
    pub fn insert(&mut self, components: Vec<u32>, archetype_id: u32)
        ensures
            final(self).spec_map() == old(self).spec_map().insert(components@, archetype_id),
    {
        id_list_map_insert(&mut self.lookup, components, archetype_id);
    }

    /// The archetype recorded for exactly this component-id list.
    pub fn get(&self, components: &[u32]) -> (r: Option<u32>)
        ensures
            r == (if self.spec_map().dom().contains(components@) {
                Some(self.spec_map()[components@])
            } else {
                None
            }),
    {
        id_list_map_get(&self.lookup, components)
    }

    /// Number of recorded component-id lists.
    pub fn count(&self) -> (r: usize)
        ensures
            r == self.spec_map().dom().len(),
    {
        id_list_map_len(&self.lookup)
    }
}

impl Default for ArchetypeRegistry {
    fn default() -> (r: Self)
        ensures
            r.spec_map() == Map::<Seq<u32>, u32>::empty(),
    {
        Self::new()
    }
}

} // verus!
