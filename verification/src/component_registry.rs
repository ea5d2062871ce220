use vstd::prelude::*;
use crate::component::ComponentSchema;
use crate::maps::{name_map_contents, name_map_get, name_map_insert, name_map_new, NameMap};

verus! {

/// Stores all registered schemas; a schema's id is its registration index and
/// names are unique (registering a known name returns its existing id).
pub struct ComponentRegistry {
    schemas: Vec<ComponentSchema>,
    name_to_id: NameMap,
}

impl ComponentRegistry {
    /// Registered schemas, indexed by id.
    pub closed spec fn spec_schemas(&self) -> Seq<ComponentSchema> {
        self.schemas@
    }

    /// The name index.
    pub closed spec fn spec_names(&self) -> Map<Seq<char>, u32> {
        name_map_contents(self.name_to_id)
    }

    /// Id of the schema called `name`, if one is registered.
    pub open spec fn spec_id_of(&self, name: Seq<char>) -> Option<u32> {
        if self.spec_names().dom().contains(name) {
            Some(self.spec_names()[name])
        } else {
            None
        }
    }

    pub open spec fn wf(&self) -> bool {
        let s = self.spec_schemas();
        &&& s.len() <= u32::MAX
        &&& forall|i: int| 0 <= i < s.len() ==> (#[trigger] s[i]).id == i
        &&& forall|n: Seq<char>|
            #[trigger] self.spec_names().dom().contains(n) ==> {
                &&& self.spec_names()[n] < s.len()
                &&& s[self.spec_names()[n] as int].name@ == n
            }
        &&& forall|i: int|
            0 <= i < s.len() ==> {
                &&& self.spec_names().dom().contains((#[trigger] s[i]).name@)
                &&& self.spec_names()[s[i].name@] == i
            }
    }

    pub fn new() -> (r: Self)
        ensures
            r.wf(),
            r.spec_schemas() == Seq::<ComponentSchema>::empty(),
            forall|n: Seq<char>| #[trigger] r.spec_id_of(n) is None,
    {
        let r = Self { schemas: Vec::new(), name_to_id: name_map_new() };
        assert(r.spec_names().dom() =~= Set::<Seq<char>>::empty());
        r
    }

    /// Register `schema` under its name and return its id. A name that is
    /// already registered keeps its schema and returns its existing id.
    pub fn register(&mut self, schema: ComponentSchema) -> (id: u32)
        requires
            old(self).wf(),
            old(self).spec_schemas().len() < u32::MAX,
        ensures
            final(self).wf(),
            final(self).spec_id_of(schema.name@) == Some(id),
            (id as int) < final(self).spec_schemas().len(),
            forall|n: Seq<char>| n != schema.name@ ==> #[trigger] final(self).spec_id_of(n) == old(self).spec_id_of(n),
            match old(self).spec_id_of(schema.name@) {
                Some(existing) => {
                    &&& id == existing
                    &&& final(self).spec_schemas() == old(self).spec_schemas()
                },
                None => {
                    &&& id == old(self).spec_schemas().len()
                    &&& final(self).spec_schemas().len() == old(self).spec_schemas().len() + 1
                    &&& final(self).spec_schemas().drop_last() == old(self).spec_schemas()
                    &&& final(self).spec_schemas().last().id == id
                    &&& final(self).spec_schemas().last().name@ == schema.name@
                    &&& final(self).spec_schemas().last().size == schema.size
                    &&& final(self).spec_schemas().last().fields@ == schema.fields@
                },
            },
    {
        let mut schema = schema;
        match name_map_get(&self.name_to_id, schema.name.as_str()) {
            Some(id) => {
                return id;
            },
            None => {},
        }
        let id = self.schemas.len() as u32;
        schema.id = id;
        let name = schema.name.clone();
        name_map_insert(&mut self.name_to_id, name, id);
        let ghost old_s = self.schemas@;
        self.schemas.push(schema);
        proof {
            let s = self.schemas@;
            let m = self.spec_names();
            assert(s.drop_last() =~= old_s);
            assert forall|i: int| 0 <= i < s.len() implies (#[trigger] s[i]).id == i by {
                if i < old_s.len() {
                    assert(s[i] == old_s[i]);
                }
            }
            assert forall|n: Seq<char>| #[trigger] m.dom().contains(n) implies {
                &&& m[n] < s.len()
                &&& s[m[n] as int].name@ == n
            } by {
                if n != schema.name@ {
                    assert(old(self).spec_names().dom().contains(n));
                    assert(s[m[n] as int] == old_s[m[n] as int]);
                }
            }
            assert forall|i: int| 0 <= i < s.len() implies {
                &&& m.dom().contains((#[trigger] s[i]).name@)
                &&& m[s[i].name@] == i
            } by {
                if i < old_s.len() {
                    assert(s[i] == old_s[i]);
                    assert(old_s[i].name@ != schema.name@);
                }
            }
        }
        id
    }

    /// Same as `register`.
    pub fn register_schema(&mut self, schema: ComponentSchema) -> (id: u32)
        requires
            old(self).wf(),
            old(self).spec_schemas().len() < u32::MAX,
        ensures
            final(self).wf(),
            final(self).spec_id_of(schema.name@) == Some(id),
            (id as int) < final(self).spec_schemas().len(),
            forall|n: Seq<char>| n != schema.name@ ==> #[trigger] final(self).spec_id_of(n) == old(self).spec_id_of(n),
            match old(self).spec_id_of(schema.name@) {
                Some(existing) => {
                    &&& id == existing
                    &&& final(self).spec_schemas() == old(self).spec_schemas()
                },
                None => {
                    &&& id == old(self).spec_schemas().len()
                    &&& final(self).spec_schemas().len() == old(self).spec_schemas().len() + 1
                    &&& final(self).spec_schemas().drop_last() == old(self).spec_schemas()
                    &&& final(self).spec_schemas().last().id == id
                    &&& final(self).spec_schemas().last().name@ == schema.name@
                    &&& final(self).spec_schemas().last().size == schema.size
                    &&& final(self).spec_schemas().last().fields@ == schema.fields@
                },
            },
    {
        self.register(schema)
    }

    /// The schema with id `id`, if registered.
    pub fn get(&self, id: u32) -> (r: Option<&ComponentSchema>)
        ensures
            match r {
                Some(s) => (id as int) < self.spec_schemas().len() && *s == self.spec_schemas()[id as int],
                None => (id as int) >= self.spec_schemas().len(),
            },
    {
        if (id as usize) < self.schemas.len() {
            Some(&self.schemas[id as usize])
        } else {
            None
        }
    }

    /// The schema called `name`, if registered.
    pub fn get_by_name(&self, name: &str) -> (r: Option<&ComponentSchema>)
        requires
            self.wf(),
        ensures
            match self.spec_id_of(name@) {
                Some(id) => r matches Some(s) && *s == self.spec_schemas()[id as int],
                None => r.is_none(),
            },
    {
        match name_map_get(&self.name_to_id, name) {
            Some(id) => self.get(id),
            None => None,
        }
    }

    /// Number of registered schemas.
    pub fn count(&self) -> (r: usize)
        ensures
            r == self.spec_schemas().len(),
    {
        self.schemas.len()
    }

    /// All registered schemas, by id.
    pub fn all_schemas(&self) -> (r: &[ComponentSchema])
        ensures
            r@ == self.spec_schemas(),
    {
        self.schemas.as_slice()
    }
}

impl Default for ComponentRegistry {
    fn default() -> (r: Self)
        ensures
            r.wf(),
            r.spec_schemas() == Seq::<ComponentSchema>::empty(),
    {
        Self::new()
    }
}

} // verus!
