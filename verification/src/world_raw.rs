//! Component access by raw bytes in field order (for callers that only know a
//! component's registered layout), checks of component instances, and world
//! statistics.
use vstd::prelude::*;
use crate::component::{
    lemma_deserialize_typed, lemma_layout_fits, spec_deserialize, spec_serialize, ComponentSchema,
};
use crate::component_instance::ComponentInstance;
use crate::entity::Entity;
use crate::text::{push_str, push_u64, spec_decimal};
use crate::world::World;

verus! {

/// What `bytes` of a component with `schema` are stored as: every field
/// decoded from its byte range and encoded again (a `bool` byte becomes 0 or 1).
pub open spec fn spec_normalized(schema: ComponentSchema, bytes: Seq<u8>) -> Seq<u8> {
    let vs = spec_deserialize(schema.fields@, bytes);
    spec_serialize(vs, vs.len() as int)
}

impl World {
    /// `bytes` has exactly the size of registered component `component_id`.
    pub open spec fn spec_raw_fits(&self, component_id: u32, bytes: Seq<u8>) -> bool {
        &&& (component_id as int) < self.spec_schemas().len()
        &&& bytes.len() == self.spec_schemas()[component_id as int].size
    }

    /// Attach component `component_id` to `entity` (or overwrite it in place
    /// if present) from its raw bytes in field order. Returns `false`, and
    /// changes nothing, when the component is not registered, `bytes` is not
    /// exactly its size, or the entity is dead.
    pub fn add_component_raw(&mut self, entity: Entity, component_id: u32, bytes: &[u8]) -> (r: bool)
        requires
            old(self).wf(),
            old(self).spec_storage_room(),
        ensures
            final(self).wf(),
            r == (old(self).spec_is_alive(entity) && old(self).spec_raw_fits(component_id, bytes@)),
            r ==> {
                &&& final(self).spec_components(entity.id as int) == old(self).spec_components(entity.id as int).insert(
                    component_id,
                    spec_normalized(old(self).spec_schemas()[component_id as int], bytes@),
                )
                &&& old(self).spec_others_unchanged(final(self), entity.id as int)
            },
            !r ==> *final(self) == *old(self),
            old(self).spec_grown(final(self), 1, 1),
            forall|k: nat| old(self).spec_room_for(k + 1) ==> #[trigger] final(self).spec_room_for(k),
    {
        let schema = match self.component_registry.get(component_id) {
            Some(s) => s,
            None => return false,
        };
        if bytes.len() != schema.size {
            return false;
        }
        proof {
            self.lemma_schema_wf(component_id as int);
            lemma_layout_fits(schema.fields@, schema.size as nat);
            lemma_deserialize_typed(schema.fields@, bytes@);
        }
        let values = schema.deserialize(bytes);
        self.add_component(entity, ComponentInstance::new(component_id, values)).is_ok()
    }

    /// Overwrite `entity`'s existing component `component_id` from its raw
    /// bytes in field order. Returns `false`, and changes nothing, when the
    /// component is not registered, `bytes` is not exactly its size, the
    /// entity is dead, or it lacks the component.
    pub fn set_component_raw(&mut self, entity: Entity, component_id: u32, bytes: &[u8]) -> (r: bool)
        requires
            old(self).wf(),
        ensures
            final(self).wf(),
            r == (old(self).spec_is_alive(entity) && old(self).spec_raw_fits(component_id, bytes@)
                && old(self).spec_components(entity.id as int).dom().contains(component_id)),
            r ==> {
                &&& final(self).spec_components(entity.id as int) == old(self).spec_components(entity.id as int).insert(
                    component_id,
                    spec_normalized(old(self).spec_schemas()[component_id as int], bytes@),
                )
                &&& old(self).spec_others_unchanged(final(self), entity.id as int)
                &&& final(self).spec_same_layout(old(self))
            },
            !r ==> *final(self) == *old(self),
    {
        let schema = match self.component_registry.get(component_id) {
            Some(s) => s,
            None => return false,
        };
        if bytes.len() != schema.size {
            return false;
        }
        proof {
            self.lemma_schema_wf(component_id as int);
            lemma_layout_fits(schema.fields@, schema.size as nat);
            lemma_deserialize_typed(schema.fields@, bytes@);
        }
        let values = schema.deserialize(bytes);
        self.set_component(entity, ComponentInstance::new(component_id, values)).is_ok()
    }

    /// Whether `c` names a registered component and holds one value of the
    /// right type per field.
    pub fn instance_fits(&self, c: &ComponentInstance) -> (r: bool)
        ensures
            r == self.spec_instance_ok(*c),
    {
        match self.component_registry.get(c.component_id) {
            Some(schema) => schema.accepts(c.values.as_slice()),
            None => false,
        }
    }

    /// Counts for an inspector panel:
    /// `{"entities":..,"archetypes":..,"components":..}`.
    pub fn stats_json(&self) -> (r: String)
        ensures
            r@ == "{\"entities\":"@ + spec_decimal(self.entity_manager.spec_alive_count() as nat) + ",\"archetypes\":"@
                + spec_decimal(self.archetypes@.len()) + ",\"components\":"@ + spec_decimal(self.spec_schemas().len())
                + "}"@,
    {
        let mut s = String::new();
        push_str(&mut s, "{\"entities\":");
        push_u64(&mut s, self.entity_count() as u64);
        push_str(&mut s, ",\"archetypes\":");
        push_u64(&mut s, self.archetype_count() as u64);
        push_str(&mut s, ",\"components\":");
        push_u64(&mut s, self.component_registry.count() as u64);
        push_str(&mut s, "}");
        s
    }

    /// The raw bytes, in field order, of alive `entity`'s component
    /// `component_id`; empty when the entity is dead or has no such component.
    pub fn get_component_raw(&self, entity: Entity, component_id: u32) -> (r: Vec<u8>)
        requires
            self.wf(),
        ensures
            self.spec_is_alive(entity) && self.spec_components(entity.id as int).dom().contains(component_id) ==> r@
                == spec_normalized(
                self.spec_schemas()[component_id as int],
                self.spec_components(entity.id as int)[component_id],
            ),
            !(self.spec_is_alive(entity) && self.spec_components(entity.id as int).dom().contains(component_id)) ==> r@
                == Seq::<u8>::empty(),
    {
        if !self.is_alive(entity) {
            return Vec::new();
        }
        let schema = match self.component_registry.get(component_id) {
            Some(s) => s,
            None => {
                proof {
                    if self.spec_components(entity.id as int).dom().contains(component_id) {
                        self.lemma_component_layout(entity.id as int, component_id);
                    }
                }
                return Vec::new();
            },
        };
        match self.get_component(entity, component_id) {
            Some(values) => {
                proof {
                    lemma_deserialize_typed(schema.fields@, self.spec_components(entity.id as int)[component_id]);
                }
                schema.serialize(values.as_slice())
            },
            None => Vec::new(),
        }
    }
}

} // verus!
