//! Properties that relate several operations of the library: what a read
//! gives back of a write, what a removal leaves behind, and how entity
//! handles are recycled.
use vstd::prelude::*;

use crate::component::{lemma_deserialize_serialize, spec_deserialize, spec_serialize, values_match};
use crate::component_instance::ComponentInstance;
use crate::component_value::ComponentValue;
use crate::entity::{Entity, EntityManager};
use crate::event::Events;
use crate::resource::Resources;
use crate::world::{instances_distinct, spec_instances, World};

verus! {

/// Reading a component back after `add_component`, `set_component` (or any
/// write that stores the instance's bytes for the entity) gives exactly the
/// written field values.
pub proof fn lemma_get_after_write(before: World, after: World, e: Entity, c: ComponentInstance)
    requires
        before.wf(),
        before.spec_instance_ok(c),
        after.spec_schemas() == before.spec_schemas(),
        after.spec_components(e.id as int) == before.spec_components(e.id as int).insert(
            c.component_id,
            before.spec_instance_bytes(c),
        ),
    ensures
        after.spec_components(e.id as int).dom().contains(c.component_id),
        spec_deserialize(
            after.spec_schemas()[c.component_id as int].fields@,
            after.spec_components(e.id as int)[c.component_id],
        ) == c.values@,
{
    let s = before.spec_schemas()[c.component_id as int];
    before.lemma_schema_wf(c.component_id as int);
    lemma_deserialize_serialize(s.fields@, s.size as nat, c.values@);
}

/// Reading a component of a freshly spawned entity gives the field values of
/// the instance it was spawned with.
pub proof fn lemma_get_after_spawn(w: World, e: Entity, comps: Seq<ComponentInstance>, k: int)
    requires
        w.wf(),
        instances_distinct(comps),
        forall|i: int| 0 <= i < comps.len() ==> w.spec_instance_ok(#[trigger] comps[i]),
        w.spec_components(e.id as int) == spec_instances(comps),
        0 <= k < comps.len(),
    ensures
        w.spec_components(e.id as int).dom().contains(comps[k].component_id),
        spec_deserialize(
            w.spec_schemas()[comps[k].component_id as int].fields@,
            w.spec_components(e.id as int)[comps[k].component_id],
        ) == comps[k].values@,
{
    let c = comps[k].component_id;
    assert(spec_instances(comps).dom().contains(c));
    let i = choose|i: int| 0 <= i < comps.len() && comps[i].component_id == c;
    assert(i == k);
    assert(w.spec_instance_ok(comps[k]));
    let s = w.spec_schemas()[c as int];
    w.lemma_schema_wf(c as int);
    lemma_deserialize_serialize(s.fields@, s.size as nat, comps[k].values@);
}

/// After `remove_component` the entity no longer has the component, and
/// keeps every other component with its bytes.
pub proof fn lemma_remove_keeps_others(before: World, after: World, e: Entity, component_id: u32)
    requires
        after.spec_components(e.id as int) == before.spec_components(e.id as int).remove(component_id),
    ensures
        !after.spec_components(e.id as int).dom().contains(component_id),
        forall|c: u32|
            c != component_id ==> (#[trigger] after.spec_components(e.id as int).dom().contains(c)
                == before.spec_components(e.id as int).dom().contains(c)),
        forall|c: u32|
            c != component_id && before.spec_components(e.id as int).dom().contains(c) ==> #[trigger] after.spec_components(
                e.id as int,
            )[c] == before.spec_components(e.id as int)[c],
{
}

/// Writing one component keeps every other component of the entity, with its
/// bytes.
pub proof fn lemma_write_keeps_others(before: World, after: World, e: Entity, c: ComponentInstance)
    requires
        after.spec_components(e.id as int) == before.spec_components(e.id as int).insert(
            c.component_id,
            before.spec_instance_bytes(c),
        ),
    ensures
        forall|x: u32|
            x != c.component_id && before.spec_components(e.id as int).dom().contains(x) ==> {
                &&& #[trigger] after.spec_components(e.id as int).dom().contains(x)
                &&& after.spec_components(e.id as int)[x] == before.spec_components(e.id as int)[x]
            },
{
}

/// Destroying an entity and creating the next one reuses its slot with the
/// generation bumped (wrapping), so the old handle stays dead while the new
/// one is alive.
pub proof fn lemma_recycled_handle(m0: EntityManager, e: Entity, m1: EntityManager, m2: EntityManager, e2: Entity)
    requires
        m0.wf(),
        m0.spec_is_alive(e),
        m1.spec_generations() == m0.spec_generations().update(
            e.id as int,
            vstd::wrapping::u32_specs::wrapping_add(e.generation, 1),
        ),
        m1.spec_free() == m0.spec_free().push(e.id),
        e2 == m1.spec_next_entity(),
        m1.spec_after_create(&m2),
    ensures
        e2.id == e.id,
        e2.generation == vstd::wrapping::u32_specs::wrapping_add(e.generation, 1),
        e2.generation != e.generation,
        m2.spec_is_alive(e2),
        !m2.spec_is_alive(e),
{
    let g = e.generation;
    assert(vstd::wrapping::u32_specs::wrapping_add(g, 1) != g) by {
        if g == u32::MAX {
            assert(vstd::wrapping::u32_specs::wrapping_add(g, 1) == 0);
        } else {
            assert(vstd::wrapping::u32_specs::wrapping_add(g, 1) == g + 1);
        }
    }
}

/// Generational validity: the handles `is_alive` accepts are exactly one per
/// slot that is not on the free list (the slot's id with its current
/// generation), so there are `alive_count()` of them.
pub proof fn lemma_alive_handles(m: EntityManager)
    requires
        m.wf(),
    ensures
        forall|e: Entity| #[trigger] m.spec_is_alive(e) ==> !m.spec_free().contains(e.id),
        forall|a: Entity, b: Entity| m.spec_is_alive(a) && m.spec_is_alive(b) && a.id == b.id ==> a == b,
        Set::new(|e: Entity| m.spec_is_alive(e)).finite(),
        Set::new(|e: Entity| m.spec_is_alive(e)).len() == m.spec_alive_count(),
{
    let n = m.spec_generations().len() as int;
    let gens = m.spec_generations();
    let free = m.spec_free();
    let free_int = Set::new(|i: int| 0 <= i < n && free.contains(i as u32));
    let to_int = |x: u32| x as int;
    free.unique_seq_to_set();
    assert(free.to_set().map(to_int) =~= free_int) by {
        assert forall|i: int| free_int.contains(i) implies free.to_set().map(to_int).contains(i) by {
            assert(free.to_set().contains(i as u32));
            assert(to_int(i as u32) == i);
        }
        assert forall|i: int| free.to_set().map(to_int).contains(i) implies free_int.contains(i) by {
            let x = choose|x: u32| free.to_set().contains(x) && to_int(x) == i;
            let k = choose|k: int| 0 <= k < free.len() && free[k] == x;
            assert(free[k] < n);
        }
    }
    assert(vstd::relations::injective_on(to_int, free.to_set()));
    vstd::set_lib::lemma_map_size(free.to_set(), free_int, to_int);
    let range = vstd::set_lib::set_int_range(0, n);
    vstd::set_lib::lemma_int_range(0, n);
    let live = range.difference(free_int);
    vstd::set_lib::lemma_set_difference_len(range, free_int);
    assert(range.intersect(free_int) =~= free_int);
    let handle = |i: int| Entity { id: i as u32, generation: gens[i] };
    assert(vstd::relations::injective_on(handle, live)) by {
        assert forall|x1: int, x2: int| live.contains(x1) && live.contains(x2) && #[trigger] handle(x1) == #[trigger] handle(x2) implies x1 == x2 by {
            assert(handle(x1).id == handle(x2).id);
        }
    }
    assert(live.map(handle) =~= Set::new(|e: Entity| m.spec_is_alive(e))) by {
        assert forall|e: Entity| m.spec_is_alive(e) implies live.map(handle).contains(e) by {
            let i = e.id as int;
            assert(live.contains(i));
            assert(handle(i) == e);
        }
        assert forall|e: Entity| live.map(handle).contains(e) implies m.spec_is_alive(e) by {
            let i = choose|i: int| live.contains(i) && handle(i) == e;
            assert((i as u32) as int == i);
        }
    }
    vstd::set_lib::lemma_map_size(live, Set::new(|e: Entity| m.spec_is_alive(e)), handle);
}

/// Reading a resource after `set` gives the values it was set to.
pub proof fn lemma_resource_read_back(before: Resources, after: Resources, id: u32, values: Seq<ComponentValue>)
    requires
        before.wf(),
        (id as int) < before.spec_schemas().len(),
        values_match(before.spec_schemas()[id as int].fields@, values),
        after.spec_schemas() == before.spec_schemas(),
        after.spec_data() == before.spec_data().insert(id, spec_serialize(values, values.len() as int)),
    ensures
        spec_deserialize(after.spec_schemas()[id as int].fields@, after.spec_data()[id]) == values,
{
    let s = before.spec_schemas()[id as int];
    before.lemma_schema_wf(id as int);
    lemma_deserialize_serialize(s.fields@, s.size as nat, values);
}

/// After `send`, the queue of that event type has the sent values as its last
/// entry, behind the events queued before, which are unchanged.
pub proof fn lemma_event_read_back(before: Events, after: Events, id: u32, values: Seq<ComponentValue>)
    requires
        before.wf(),
        (id as int) < before.spec_schemas().len(),
        values_match(before.spec_schemas()[id as int].fields@, values),
        after.spec_schemas() == before.spec_schemas(),
        after.spec_queues() == before.spec_queues().insert(
            id,
            before.spec_queues()[id].push(spec_serialize(values, values.len() as int)),
        ),
    ensures
        after.spec_queues()[id].len() == before.spec_queues()[id].len() + 1,
        forall|i: int|
            0 <= i < before.spec_queues()[id].len() ==> #[trigger] after.spec_queues()[id][i]
                == before.spec_queues()[id][i],
        spec_deserialize(after.spec_schemas()[id as int].fields@, after.spec_queues()[id].last()) == values,
{
    let s = before.spec_schemas()[id as int];
    before.lemma_schema_wf(id as int);
    lemma_deserialize_serialize(s.fields@, s.size as nat, values);
}

} // verus!
