use vstd::prelude::*;
use vstd::bytes::{spec_u32_from_le_bytes, spec_u32_to_le_bytes, u32_from_le_bytes, u32_to_le_bytes};
use crate::component::{fields_fit, lemma_layout_fits, spec_deserialize, spec_serialize, values_match, ComponentSchema};
use crate::component_registry::ComponentRegistry;
use crate::component_value::ComponentValue;
use crate::error::{EcsError, EcsResult};
use crate::maps::{
    bytes_map_contains, bytes_map_contents, bytes_map_get, bytes_map_get_mut, bytes_map_insert, bytes_map_new,
    BytesMap,
};

verus! {

/// `n` zero bytes.
pub open spec fn spec_zeros(n: nat) -> Seq<u8> {
    Seq::new(n, |i: int| 0u8)
}

/// A vector of `n` zero bytes.
fn zeros(n: usize) -> (r: Vec<u8>)
    ensures
        r@ == spec_zeros(n as nat),
{
    let mut v: Vec<u8> = Vec::new();
    let mut i: usize = 0;
    while i < n
        invariant
            i <= n,
            v@ == spec_zeros(i as nat),
        decreases n - i,
    {
        v.push(0u8);
        i = i + 1;
        proof {
            assert(v@ =~= spec_zeros(i as nat));
        }
    }
    v
}

/// `d` holds exactly one value per schema of `s`, of that schema's size.
pub open spec fn data_ok(s: Seq<ComponentSchema>, d: Map<u32, Seq<u8>>) -> bool {
    &&& forall|id: u32| #[trigger] d.dom().contains(id) <==> (id as int) < s.len()
    &&& forall|id: u32| (id as int) < s.len() ==> (#[trigger] d[id]).len() == s[id as int].size
}

/// Replacing one value by bytes of the same schema's size keeps `data_ok`.
proof fn lemma_data_store(s: Seq<ComponentSchema>, d: Map<u32, Seq<u8>>, id: u32, bytes: Seq<u8>)
    requires
        data_ok(s, d),
        (id as int) < s.len(),
        bytes.len() == s[id as int].size,
    ensures
        data_ok(s, d.insert(id, bytes)),
{
    let d2 = d.insert(id, bytes);
    assert forall|k: u32| #[trigger] d2.dom().contains(k) <==> (k as int) < s.len() by {
        assert(d.dom().contains(k) <==> (k as int) < s.len());
    }
    assert forall|k: u32| (k as int) < s.len() implies (#[trigger] d2[k]).len() == s[k as int].size by {
        if k != id {
            assert(d[k].len() == s[k as int].size);
        }
    }
}

/// Global, non-entity singleton data (time, input, camera, game state, ...):
/// one stored value per registered schema, serialized like a component.
pub struct Resources {
    registry: ComponentRegistry,
    data: BytesMap,
}

impl Resources {
    /// Registered resource schemas, by id.
    pub closed spec fn spec_schemas(&self) -> Seq<ComponentSchema> {
        self.registry.spec_schemas()
    }

    /// The stored bytes of every registered resource, by id.
    pub closed spec fn spec_data(&self) -> Map<u32, Seq<u8>> {
        bytes_map_contents(self.data)
    }

    /// Id of the resource called `name`, if registered.
    pub closed spec fn spec_id_of(&self, name: Seq<char>) -> Option<u32> {
        self.registry.spec_id_of(name)
    }

    /// Every registered resource has a well-formed schema and a stored value
    /// of its size; nothing else is stored.
    pub closed spec fn wf(&self) -> bool {
        let s = self.registry.spec_schemas();
        &&& self.registry.wf()
        &&& forall|i: int| 0 <= i < s.len() ==> (#[trigger] s[i]).wf()
        &&& data_ok(s, self.spec_data())
    }

    /// Every registered resource schema has a well-formed layout.
    pub proof fn lemma_schema_wf(&self, i: int)
        requires
            self.wf(),
            0 <= i < self.spec_schemas().len(),
        ensures
            self.spec_schemas()[i].wf(),
    {
    }

    /// Storing bytes of the right size for a registered resource keeps `wf`.
    proof fn lemma_wf_store(&self, before: &Resources, id: u32, bytes: Seq<u8>)
        requires
            before.wf(),
            self.registry == before.registry,
            (id as int) < before.spec_schemas().len(),
            bytes.len() == before.spec_schemas()[id as int].size,
            self.spec_data() == before.spec_data().insert(id, bytes),
        ensures
            self.wf(),
    {
        lemma_data_store(before.spec_schemas(), before.spec_data(), id, bytes);
    }

    /// Number of registered resources.
    pub fn registered_count(&self) -> (r: usize)
        ensures
            r == self.spec_schemas().len(),
    {
        self.registry.count()
    }

    /// No resources.
    pub fn new() -> (r: Self)
        ensures
            r.wf(),
            forall|n: Seq<char>| #[trigger] r.spec_id_of(n) is None,
            r.spec_schemas() == Seq::<ComponentSchema>::empty(),
            r.spec_data() == Map::<u32, Seq<u8>>::empty(),
    {
        let r = Resources { registry: ComponentRegistry::new(), data: bytes_map_new() };
        assert(r.spec_data() =~= Map::<u32, Seq<u8>>::empty());
        r
    }

    /// Register a (well-formed) resource schema, idempotent by name. A new
    /// resource starts as all zero bytes; registering a known name keeps its value.
    pub fn register(&mut self, schema: ComponentSchema) -> (id: u32)
        requires
            old(self).wf(),
            schema.wf(),
            old(self).spec_schemas().len() < u32::MAX,
        ensures
            final(self).wf(),
            final(self).spec_id_of(schema.name@) == Some(id),
            (id as int) < final(self).spec_schemas().len(),
            forall|n: Seq<char>| n != schema.name@ ==> #[trigger] final(self).spec_id_of(n) == old(self).spec_id_of(n),
            match old(self).spec_id_of(schema.name@) {
                Some(existing) => {
                    &&& id == existing
                    &&& final(self).spec_schemas() == old(self).spec_schemas()
                    &&& final(self).spec_data() == old(self).spec_data()
                },
                None => {
                    &&& id == old(self).spec_schemas().len()
                    &&& final(self).spec_schemas().drop_last() == old(self).spec_schemas()
                    &&& final(self).spec_schemas().last().id == id
                    &&& final(self).spec_schemas().last().name@ == schema.name@
                    &&& final(self).spec_schemas().last().size == schema.size
                    &&& final(self).spec_schemas().last().fields@ == schema.fields@
                    &&& final(self).spec_data() == old(self).spec_data().insert(id, spec_zeros(schema.size as nat))
                },
            },
    {
        let size = schema.size;
        let ghost s0 = self.spec_schemas();
        let ghost d0 = self.spec_data();
        let ghost r0 = self.registry;
        let id = self.registry.register_schema(schema);
        if !bytes_map_contains(&self.data, id) {
            bytes_map_insert(&mut self.data, id, zeros(size));
        }
        proof {
            let s = self.spec_schemas();
            assert forall|i: int| 0 <= i < s.len() implies (#[trigger] s[i]).wf() by {
                if i < s0.len() {
                    assert(s[i] == s0[i]);
                }
            }
            assert forall|k: u32| #[trigger] self.spec_data().dom().contains(k) <==> (k as int) < s.len() by {
                assert(d0.dom().contains(k) <==> (k as int) < s0.len());
            }
            assert forall|k: u32| (k as int) < s.len() implies (#[trigger] self.spec_data()[k]).len() == s[k as int].size by {
                if (k as int) < s0.len() {
                    assert(s[k as int] == s0[k as int]);
                    assert(d0.dom().contains(k));
                    assert(d0[k].len() == s0[k as int].size);
                    if k != id {
                        assert(self.spec_data()[k] == d0[k]);
                    }
                }
            }
            if s.len() == s0.len() {
                assert(self.spec_data() =~= d0);
            }
        }
        id
    }

    /// Id of the resource called `name`, if registered.
    pub fn resource_id(&self, name: &str) -> (r: Option<u32>)
        requires
            self.wf(),
        ensures
            r == self.spec_id_of(name@),
    {
        match self.registry.get_by_name(name) {
            Some(s) => Some(s.id),
            None => None,
        }
    }

    /// Whether resource `resource_id` has a stored value (is registered).
    pub fn has(&self, resource_id: u32) -> (r: bool)
        ensures
            r == self.spec_data().dom().contains(resource_id),
    {
        bytes_map_contains(&self.data, resource_id)
    }

    /// The schema of resource `resource_id`, if registered.
    pub fn schema(&self, resource_id: u32) -> (r: Option<&ComponentSchema>)
        ensures
            match r {
                Some(s) => (resource_id as int) < self.spec_schemas().len() && *s == self.spec_schemas()[resource_id as int],
                None => (resource_id as int) >= self.spec_schemas().len(),
            },
    {
        self.registry.get(resource_id)
    }

    /// Overwrite the resource's value with `values` (one per field, in field
    /// order). Fails with `ResourceNotRegistered` for an unknown id.
    pub fn set(&mut self, resource_id: u32, values: &[ComponentValue]) -> (r: EcsResult<()>)
        requires
            old(self).wf(),
            (resource_id as int) < old(self).spec_schemas().len() ==> values_match(
                old(self).spec_schemas()[resource_id as int].fields@,
                values@,
            ),
        ensures
            final(self).wf(),
            final(self).spec_schemas() == old(self).spec_schemas(),
            (resource_id as int) >= old(self).spec_schemas().len() ==> {
                &&& r == Err::<(), EcsError>(EcsError::ResourceNotRegistered(resource_id))
                &&& final(self).spec_data() == old(self).spec_data()
            },
            (resource_id as int) < old(self).spec_schemas().len() ==> {
                &&& r is Ok
                &&& final(self).spec_data() == old(self).spec_data().insert(
                    resource_id,
                    spec_serialize(values@, values@.len() as int),
                )
            },
    {
        let schema = match self.registry.get(resource_id) {
            Some(s) => s,
            None => return Err(EcsError::ResourceNotRegistered(resource_id)),
        };
        let bytes = schema.serialize(values);
        let ghost before = *self;
        proof {
            assert(self.spec_schemas()[resource_id as int].wf());
        }
        bytes_map_insert(&mut self.data, resource_id, bytes);
        proof {
            self.lemma_wf_store(&before, resource_id, bytes@);
        }
        Ok(())
    }

    /// The resource's field values, if it is registered.
    pub fn get(&self, resource_id: u32) -> (r: Option<Vec<ComponentValue>>)
        requires
            self.wf(),
        ensures
            (resource_id as int) >= self.spec_schemas().len() ==> r is None,
            (resource_id as int) < self.spec_schemas().len() ==> (r matches Some(v) && v@ == spec_deserialize(
                self.spec_schemas()[resource_id as int].fields@,
                self.spec_data()[resource_id],
            )),
    {
        let schema = match self.registry.get(resource_id) {
            Some(s) => s,
            None => return None,
        };
        proof {
            assert(self.spec_data().dom().contains(resource_id));
        }
        let bytes = match bytes_map_get(&self.data, resource_id) {
            Some(b) => b,
            None => return None,
        };
        proof {
            assert(self.spec_schemas()[resource_id as int].wf());
            assert(self.spec_data()[resource_id].len() == schema.size);
            lemma_layout_fits(schema.fields@, schema.size as nat);
        }
        Some(schema.deserialize(bytes))
    }

    /// The resource's raw bytes, if it is registered.
    pub fn get_bytes(&self, resource_id: u32) -> (r: Option<&[u8]>)
        ensures
            match r {
                Some(b) => self.spec_data().dom().contains(resource_id) && b@ == self.spec_data()[resource_id],
                None => !self.spec_data().dom().contains(resource_id),
            },
    {
        bytes_map_get(&self.data, resource_id)
    }

    /// Mutable raw bytes of the resource, if it is registered; what is left
    /// in the slice is the resource's value afterwards.
    pub fn get_bytes_mut(&mut self, resource_id: u32) -> (r: Option<&mut [u8]>)
        requires
            old(self).wf(),
        ensures
            final(self).spec_schemas() == old(self).spec_schemas(),
            match r {
                Some(b) => {
                    &&& old(self).spec_data().dom().contains(resource_id)
                    &&& b@ == old(self).spec_data()[resource_id]
                    &&& final(b)@.len() == b@.len()
                    &&& final(self).spec_data() == old(self).spec_data().insert(resource_id, final(b)@)
                },
                None => {
                    &&& !old(self).spec_data().dom().contains(resource_id)
                    &&& final(self).spec_data() == old(self).spec_data()
                },
            },
            final(self).wf(),
    {
        let ghost s0 = self.spec_schemas();
        let ghost d0 = self.spec_data();
        proof {
            if d0.dom().contains(resource_id) {
                assert((resource_id as int) < s0.len());
                assert(d0[resource_id].len() == s0[resource_id as int].size);
            }
        }
        bytes_map_get_mut(&mut self.data, resource_id)
    }

    /// The `u32` at `byte_offset` in the resource's bytes, if it is registered
    /// and the four bytes lie within them.
    pub fn read_u32_at(&self, resource_id: u32, byte_offset: usize) -> (r: Option<u32>)
        ensures
            match r {
                Some(v) => {
                    &&& self.spec_data().dom().contains(resource_id)
                    &&& byte_offset + 4 <= self.spec_data()[resource_id].len()
                    &&& v == spec_u32_from_le_bytes(
                        self.spec_data()[resource_id].subrange(byte_offset as int, byte_offset + 4),
                    )
                },
                None => !self.spec_data().dom().contains(resource_id) || byte_offset + 4 > self.spec_data()[resource_id].len(),
            },
    {
        match bytes_map_get(&self.data, resource_id) {
            Some(b) => {
                if byte_offset <= b.len() && 4 <= b.len() - byte_offset {
                    Some(u32_from_le_bytes(&b[byte_offset..byte_offset + 4]))
                } else {
                    None
                }
            },
            None => None,
        }
    }

    /// Write the `u32` `value` at `byte_offset` in the resource's bytes, if it
    /// is registered and the four bytes lie within them; says whether it wrote.
    pub fn write_u32_at(&mut self, resource_id: u32, byte_offset: usize, value: u32) -> (r: bool)
        requires
            old(self).wf(),
        ensures
            final(self).wf(),
            final(self).spec_schemas() == old(self).spec_schemas(),
            r == (old(self).spec_data().dom().contains(resource_id) && byte_offset + 4 <= old(self).spec_data()[resource_id].len()),
            r ==> final(self).spec_data() == old(self).spec_data().insert(
                resource_id,
                old(self).spec_data()[resource_id].subrange(0, byte_offset as int) + spec_u32_to_le_bytes(value)
                    + old(self).spec_data()[resource_id].subrange(byte_offset + 4, old(self).spec_data()[resource_id].len() as int),
            ),
            !r ==> final(self).spec_data() == old(self).spec_data(),
    {
        let ghost d0 = self.spec_data();
        match bytes_map_get_mut(&mut self.data, resource_id) {
            Some(b) => {
                let ghost s0 = b@;
                let blen = b.len();
                if byte_offset <= blen && 4 <= blen - byte_offset {
                    let v = u32_to_le_bytes(value);
                    let mut i: usize = 0;
                    while i < 4
                        invariant
                            i <= 4,
                            blen == s0.len(),
                            v@.len() == 4,
                            b@.len() == s0.len(),
                            byte_offset + 4 <= s0.len(),
                            forall|p: int|
                                0 <= p < s0.len() ==> #[trigger] b@[p] == if byte_offset <= p < byte_offset + i {
                                    v@[p - byte_offset]
                                } else {
                                    s0[p]
                                },
                        decreases 4 - i,
                    {
                        b[byte_offset + i] = v[i];
                        i = i + 1;
                    }
                    proof {
                        assert(b@ =~= s0.subrange(0, byte_offset as int) + spec_u32_to_le_bytes(value) + s0.subrange(
                            byte_offset + 4,
                            s0.len() as int,
                        ));
                    }
                    true
                } else {
                    proof {
                        assert(d0.insert(resource_id, s0) =~= d0);
                    }
                    false
                }
            },
            None => false,
        }
    }
}

impl Default for Resources {
    /// No resources.
    fn default() -> (r: Self)
        ensures
            r.wf(),
            r.spec_schemas() == Seq::<ComponentSchema>::empty(),
            r.spec_data() == Map::<u32, Seq<u8>>::empty(),
    {
        Self::new()
    }
}

} // verus!
