use vstd::prelude::*;
use crate::component::{lemma_layout_fits, spec_deserialize, spec_serialize, values_match, ComponentSchema};
use crate::component_registry::ComponentRegistry;
use crate::component_value::ComponentValue;
use crate::maps::{
    queue_map_contents, queue_map_get, queue_map_insert, queue_map_new, queue_map_remove, QueueMap,
};

verus! {

/// `q` holds exactly one queue per schema of `s`, each payload of that schema's size.
pub open spec fn queues_ok(s: Seq<ComponentSchema>, q: Map<u32, Seq<Seq<u8>>>) -> bool {
    &&& forall|id: u32| #[trigger] q.dom().contains(id) <==> (id as int) < s.len()
    &&& forall|id: u32, i: int|
        (id as int) < s.len() && 0 <= i < q[id].len() ==> (#[trigger] q[id][i]).len() == s[id as int].size
}

/// Replacing one queue by payloads of the right size keeps `queues_ok`.
proof fn lemma_queue_store(s: Seq<ComponentSchema>, q: Map<u32, Seq<Seq<u8>>>, id: u32, v: Seq<Seq<u8>>)
    requires
        queues_ok(s, q),
        (id as int) < s.len(),
        forall|i: int| 0 <= i < v.len() ==> (#[trigger] v[i]).len() == s[id as int].size,
    ensures
        queues_ok(s, q.insert(id, v)),
{
    let q2 = q.insert(id, v);
    assert forall|k: u32| #[trigger] q2.dom().contains(k) <==> (k as int) < s.len() by {
        assert(q.dom().contains(k) <==> (k as int) < s.len());
    }
    assert forall|k: u32, i: int| (k as int) < s.len() && 0 <= i < q2[k].len() implies (#[trigger] q2[k][i]).len()
        == s[k as int].size by {
        if k != id {
            assert(q[k][i].len() == s[k as int].size);
        }
    }
}

/// Frame-scoped event queues: one queue of serialized payloads per registered
/// event schema. `send` appends, `read` peeks, `drain` reads and empties.
pub struct Events {
    registry: ComponentRegistry,
    queues: QueueMap,
}

impl Events {
    /// Registered event schemas, by id.
    pub closed spec fn spec_schemas(&self) -> Seq<ComponentSchema> {
        self.registry.spec_schemas()
    }

    /// The queued payloads of every registered event, by id, oldest first.
    pub closed spec fn spec_queues(&self) -> Map<u32, Seq<Seq<u8>>> {
        queue_map_contents(self.queues)
    }

    /// Id of the event called `name`, if registered.
    pub closed spec fn spec_id_of(&self, name: Seq<char>) -> Option<u32> {
        self.registry.spec_id_of(name)
    }

    /// Every registered event has a well-formed schema and a queue of payloads
    /// of its size; there are no other queues.
    pub closed spec fn wf(&self) -> bool {
        let s = self.registry.spec_schemas();
        &&& self.registry.wf()
        &&& forall|i: int| 0 <= i < s.len() ==> (#[trigger] s[i]).wf()
        &&& queues_ok(s, self.spec_queues())
    }

    /// Every registered event type schema has a well-formed layout.
    pub proof fn lemma_schema_wf(&self, i: int)
        requires
            self.wf(),
            0 <= i < self.spec_schemas().len(),
        ensures
            self.spec_schemas()[i].wf(),
    {
    }

    /// Number of registered event types.
    pub fn registered_count(&self) -> (r: usize)
        ensures
            r == self.spec_schemas().len(),
    {
        self.registry.count()
    }

    /// No events.
    pub fn new() -> (r: Self)
        ensures
            r.wf(),
            forall|n: Seq<char>| #[trigger] r.spec_id_of(n) is None,
            r.spec_schemas() == Seq::<ComponentSchema>::empty(),
            r.spec_queues() == Map::<u32, Seq<Seq<u8>>>::empty(),
    {
        let r = Events { registry: ComponentRegistry::new(), queues: queue_map_new() };
        assert(r.spec_queues() =~= Map::<u32, Seq<Seq<u8>>>::empty());
        r
    }

    /// Register a (well-formed) event schema, idempotent by name; a new event
    /// starts with an empty queue.
    pub fn register(&mut self, schema: ComponentSchema) -> (id: u32)
        requires
            old(self).wf(),
            schema.wf(),
            old(self).spec_schemas().len() < u32::MAX,
        ensures
            final(self).wf(),
            final(self).spec_id_of(schema.name@) == Some(id),
            (id as int) < final(self).spec_schemas().len(),
            forall|n: Seq<char>| n != schema.name@ ==> #[trigger] final(self).spec_id_of(n) == old(self).spec_id_of(n),
            match old(self).spec_id_of(schema.name@) {
                Some(existing) => {
                    &&& id == existing
                    &&& final(self).spec_schemas() == old(self).spec_schemas()
                    &&& final(self).spec_queues() == old(self).spec_queues()
                },
                None => {
                    &&& id == old(self).spec_schemas().len()
                    &&& final(self).spec_schemas().drop_last() == old(self).spec_schemas()
                    &&& final(self).spec_schemas().last().id == id
                    &&& final(self).spec_schemas().last().name@ == schema.name@
                    &&& final(self).spec_schemas().last().size == schema.size
                    &&& final(self).spec_schemas().last().fields@ == schema.fields@
                    &&& final(self).spec_queues() == old(self).spec_queues().insert(id, Seq::<Seq<u8>>::empty())
                },
            },
    {
        let ghost s0 = self.spec_schemas();
        let ghost q0 = self.spec_queues();
        let id = self.registry.register_schema(schema);
        match queue_map_get(&self.queues, id) {
            Some(_) => {},
            None => {
                let empty: Vec<Vec<u8>> = Vec::new();
                proof {
                    assert(empty.deep_view() =~= Seq::<Seq<u8>>::empty());
                }
                queue_map_insert(&mut self.queues, id, empty);
            },
        }
        proof {
            let s = self.spec_schemas();
            assert forall|i: int| 0 <= i < s.len() implies (#[trigger] s[i]).wf() by {
                if i < s0.len() {
                    assert(s[i] == s0[i]);
                }
            }
            let q = self.spec_queues();
            assert forall|k: u32| #[trigger] q.dom().contains(k) <==> (k as int) < s.len() by {
                assert(q0.dom().contains(k) <==> (k as int) < s0.len());
            }
            assert forall|k: u32, i: int| (k as int) < s.len() && 0 <= i < q[k].len() implies (#[trigger] q[k][i]).len()
                == s[k as int].size by {
                if (k as int) < s0.len() {
                    assert(q0.dom().contains(k));
                    assert(s[k as int] == s0[k as int]);
                    if k != id {
                        assert(q[k] == q0[k]);
                    }
                    assert(q0[k][i].len() == s0[k as int].size);
                }
            }
            if s.len() == s0.len() {
                assert(q =~= q0);
            }
        }
        id
    }

    /// Id of the event called `name`, if registered.
    pub fn event_id(&self, name: &str) -> (r: Option<u32>)
        requires
            self.wf(),
        ensures
            r == self.spec_id_of(name@),
    {
        match self.registry.get_by_name(name) {
            Some(s) => Some(s.id),
            None => None,
        }
    }

    /// The schema of event `event_id`, if registered.
    pub fn schema(&self, event_id: u32) -> (r: Option<&ComponentSchema>)
        ensures
            match r {
                Some(s) => (event_id as int) < self.spec_schemas().len() && *s == self.spec_schemas()[event_id as int],
                None => (event_id as int) >= self.spec_schemas().len(),
            },
    {
        self.registry.get(event_id)
    }

    /// Queue one event instance with `values` (one per field, in field order);
    /// an unknown `event_id` is ignored.
    pub fn send(&mut self, event_id: u32, values: &[ComponentValue])
        requires
            old(self).wf(),
            (event_id as int) < old(self).spec_schemas().len() ==> values_match(
                old(self).spec_schemas()[event_id as int].fields@,
                values@,
            ),
        ensures
            final(self).wf(),
            final(self).spec_schemas() == old(self).spec_schemas(),
            (event_id as int) >= old(self).spec_schemas().len() ==> final(self).spec_queues() == old(self).spec_queues(),
            (event_id as int) < old(self).spec_schemas().len() ==> final(self).spec_queues() == old(self).spec_queues().insert(
                event_id,
                old(self).spec_queues()[event_id].push(spec_serialize(values@, values@.len() as int)),
            ),
    {
        let schema = match self.registry.get(event_id) {
            Some(s) => s,
            None => return,
        };
        let bytes = schema.serialize(values);
        let ghost s0 = self.spec_schemas();
        let ghost q0 = self.spec_queues();
        proof {
            assert(s0[event_id as int].wf());
            assert(q0.dom().contains(event_id));
        }
        let mut queue = match queue_map_remove(&mut self.queues, event_id) {
            Some(q) => q,
            None => Vec::new(),
        };
        let ghost before = queue.deep_view();
        let ghost qv = queue@;
        let ghost bv = bytes@;
        proof {
            assert(bytes.deep_view() =~= bv);
        }
        queue.push(bytes);
        proof {
            assert(queue@ == qv.push(bytes));
            assert forall|i: int| 0 <= i < queue.deep_view().len() implies #[trigger] queue.deep_view()[i] == before.push(bv)[i] by {
                if i < qv.len() {
                    assert(queue@[i] == qv[i]);
                }
            }
            assert(queue.deep_view() =~= before.push(bv));
        }
        queue_map_insert(&mut self.queues, event_id, queue);
        proof {
            assert(self.spec_queues() =~= q0.insert(event_id, q0[event_id].push(bv)));
            assert forall|i: int| 0 <= i < q0[event_id].push(bv).len() implies (#[trigger] q0[event_id].push(bv)[i]).len()
                == s0[event_id as int].size by {
                if i < q0[event_id].len() {
                    assert(q0[event_id][i].len() == s0[event_id as int].size);
                }
            }
            lemma_queue_store(s0, q0, event_id, q0[event_id].push(bv));
        }
    }

    /// Decode every payload of `q` with the schema of `event_id`.
    fn decode_all(&self, event_id: u32, q: &Vec<Vec<u8>>) -> (r: Vec<Vec<ComponentValue>>)
        requires
            self.wf(),
            (event_id as int) < self.spec_schemas().len(),
            forall|i: int| 0 <= i < q@.len() ==> (#[trigger] q@[i])@.len() == self.spec_schemas()[event_id as int].size,
        ensures
            r@.len() == q@.len(),
            forall|i: int|
                0 <= i < r@.len() ==> (#[trigger] r@[i])@ == spec_deserialize(
                    self.spec_schemas()[event_id as int].fields@,
                    q@[i]@,
                ),
    {
        let schema = self.registry.get(event_id).unwrap();
        proof {
            assert(self.spec_schemas()[event_id as int].wf());
            lemma_layout_fits(schema.fields@, schema.size as nat);
        }
        let mut out: Vec<Vec<ComponentValue>> = Vec::new();
        let mut i: usize = 0;
        while i < q.len()
            invariant
                i <= q@.len(),
                out@.len() == i,
                *schema == self.spec_schemas()[event_id as int],
                crate::component::fields_fit(schema.fields@, schema.size as nat),
                forall|k: int| 0 <= k < q@.len() ==> (#[trigger] q@[k])@.len() == schema.size,
                forall|k: int| 0 <= k < i ==> (#[trigger] out@[k])@ == spec_deserialize(schema.fields@, q@[k]@),
            decreases q@.len() - i,
        {
            out.push(schema.deserialize(q[i].as_slice()));
            i = i + 1;
        }
        out
    }

    /// This frame's events of type `event_id` so far, decoded, without
    /// clearing them (empty for an unknown id).
    pub fn read(&self, event_id: u32) -> (r: Vec<Vec<ComponentValue>>)
        requires
            self.wf(),
        ensures
            (event_id as int) >= self.spec_schemas().len() ==> r@.len() == 0,
            (event_id as int) < self.spec_schemas().len() ==> {
                &&& r@.len() == self.spec_queues()[event_id].len()
                &&& forall|i: int|
                    0 <= i < r@.len() ==> (#[trigger] r@[i])@ == spec_deserialize(
                        self.spec_schemas()[event_id as int].fields@,
                        self.spec_queues()[event_id][i],
                    )
            },
    {
        if self.registry.get(event_id).is_none() {
            return Vec::new();
        }
        proof {
            assert(self.spec_queues().dom().contains(event_id));
        }
        match queue_map_get(&self.queues, event_id) {
            Some(q) => {
                proof {
                    assert forall|i: int| 0 <= i < q@.len() implies (#[trigger] q@[i])@.len() == self.spec_schemas()[event_id as int].size by {
                        assert(q.deep_view()[i] == q@[i]@);
                        assert(self.spec_queues()[event_id][i].len() == self.spec_schemas()[event_id as int].size);
                    }
                }
                let r = self.decode_all(event_id, q);
                proof {
                    assert forall|i: int| 0 <= i < r@.len() implies (#[trigger] r@[i])@ == spec_deserialize(
                        self.spec_schemas()[event_id as int].fields@,
                        self.spec_queues()[event_id][i],
                    ) by {
                        assert(q.deep_view()[i] == q@[i]@);
                    }
                }
                r
            },
            None => Vec::new(),
        }
    }

    /// Read and clear this frame's events of type `event_id` (empty for an unknown id).
    pub fn drain(&mut self, event_id: u32) -> (r: Vec<Vec<ComponentValue>>)
        requires
            old(self).wf(),
        ensures
            final(self).wf(),
            final(self).spec_schemas() == old(self).spec_schemas(),
            (event_id as int) >= old(self).spec_schemas().len() ==> {
                &&& r@.len() == 0
                &&& final(self).spec_queues() == old(self).spec_queues()
            },
            (event_id as int) < old(self).spec_schemas().len() ==> {
                &&& r@.len() == old(self).spec_queues()[event_id].len()
                &&& forall|i: int|
                    0 <= i < r@.len() ==> (#[trigger] r@[i])@ == spec_deserialize(
                        old(self).spec_schemas()[event_id as int].fields@,
                        old(self).spec_queues()[event_id][i],
                    )
                &&& final(self).spec_queues() == old(self).spec_queues().insert(event_id, Seq::<Seq<u8>>::empty())
            },
    {
        if self.registry.get(event_id).is_none() {
            return Vec::new();
        }
        let r = self.read(event_id);
        self.clear(event_id);
        r
    }

    /// Empty the queue of `event_id` (nothing happens for an unknown id).
    pub fn clear(&mut self, event_id: u32)
        requires
            old(self).wf(),
        ensures
            final(self).wf(),
            final(self).spec_schemas() == old(self).spec_schemas(),
            (event_id as int) >= old(self).spec_schemas().len() ==> final(self).spec_queues() == old(self).spec_queues(),
            (event_id as int) < old(self).spec_schemas().len() ==> final(self).spec_queues() == old(self).spec_queues().insert(
                event_id,
                Seq::<Seq<u8>>::empty(),
            ),
    {
        let ghost s0 = self.spec_schemas();
        let ghost q0 = self.spec_queues();
        match queue_map_get(&self.queues, event_id) {
            Some(_) => {
                let empty: Vec<Vec<u8>> = Vec::new();
                proof {
                    assert(empty.deep_view() =~= Seq::<Seq<u8>>::empty());
                }
                queue_map_insert(&mut self.queues, event_id, empty);
                proof {
                    lemma_queue_store(s0, q0, event_id, Seq::<Seq<u8>>::empty());
                }
            },
            None => {},
        }
    }

    /// Empty every queue.
    pub fn clear_all(&mut self)
        requires
            old(self).wf(),
        ensures
            final(self).wf(),
            final(self).spec_schemas() == old(self).spec_schemas(),
            final(self).spec_queues().dom() == old(self).spec_queues().dom(),
            forall|id: u32| #[trigger] final(self).spec_queues().dom().contains(id) ==> final(self).spec_queues()[id] == Seq::<Seq<u8>>::empty(),
    {
        let n = self.registry.count();
        let ghost q0 = self.spec_queues();
        let mut i: usize = 0;
        while i < n
            invariant
                self.wf(),
                n == self.spec_schemas().len(),
                self.spec_schemas() == old(self).spec_schemas(),
                q0 == old(self).spec_queues(),
                i <= n,
                self.spec_queues().dom() == q0.dom(),
                forall|id: u32| (id as int) < i ==> #[trigger] self.spec_queues()[id] == Seq::<Seq<u8>>::empty(),
            decreases n - i,
        {
            proof {
                assert(n <= u32::MAX);
            }
            self.clear(i as u32);
            proof {
                assert(self.spec_queues().dom() =~= q0.dom()) by {
                    assert(q0.dom().contains(i as u32));
                }
            }
            i = i + 1;
        }
        proof {
            assert forall|id: u32| #[trigger] self.spec_queues().dom().contains(id) implies self.spec_queues()[id] == Seq::<Seq<u8>>::empty() by {
                assert(q0.dom().contains(id));
            }
        }
    }

    /// Number of queued events of type `event_id` (0 for an unknown id).
    pub fn count(&self, event_id: u32) -> (r: usize)
        ensures
            self.spec_queues().dom().contains(event_id) ==> r == self.spec_queues()[event_id].len(),
            !self.spec_queues().dom().contains(event_id) ==> r == 0,
    {
        match queue_map_get(&self.queues, event_id) {
            Some(q) => q.len(),
            None => 0,
        }
    }
}

impl Default for Events {
    /// No events.
    fn default() -> (r: Self)
        ensures
            r.wf(),
            r.spec_schemas() == Seq::<ComponentSchema>::empty(),
            r.spec_queues() == Map::<u32, Seq<Seq<u8>>>::empty(),
    {
        Self::new()
    }
}

} // verus!
