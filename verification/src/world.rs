use vstd::prelude::*;
use crate::archetype::{
    spec_row, spec_rows, spec_swap_remove_rows, chunk_fits, lemma_push_row, lemma_swap_remove_rows, Archetype,
    Chunk, Column,
};
use crate::archetype_registry::ArchetypeRegistry;
use crate::bitset::ComponentMask;
use crate::component::{
    layout_wf, spec_deserialize, spec_serialize, values_match, lemma_deserialize_serialize,
    fields_fit, ComponentSchema,
};
use crate::component_instance::ComponentInstance;
use crate::component_registry::ComponentRegistry;
use crate::component_value::ComponentValue;
use crate::constants::CHUNK_CAPACITY;
use crate::entity::{Entity, EntityManager};
use crate::error::{EcsError, EcsResult};
use crate::location::EntityLocation;
use crate::maps::index_map_contents;
use crate::resource::Resources;
use crate::event::Events;

verus! {

/// The central ECS container.
///
/// Entities are generational handles; every entity that has components lives
/// in exactly one row of one chunk of the archetype for its exact component
/// set, and `locations[id]` says where. Component data is stored as
/// little-endian bytes, one column per component.
pub struct World {
    pub entity_manager: EntityManager,
    pub archetypes: Vec<Archetype>,
    /// entity id → location in archetype storage (invalid when the entity has no components)
    pub locations: Vec<EntityLocation>,
    pub component_registry: ComponentRegistry,
    pub archetype_registry: ArchetypeRegistry,
    /// Singleton, non-entity data (time, input, camera, game state, ...).
    pub resources: Resources,
    /// Frame-scoped event queues.
    pub events: Events,
}

/// `s` is strictly increasing.
pub open spec fn strictly_sorted(s: Seq<u32>) -> bool {
    forall|i: int, j: int| 0 <= i < j < s.len() ==> s[i] < s[j]
}

/// Whether no id occurs twice in `ids`.
fn ids_distinct(ids: &[u32]) -> (r: bool)
    ensures
        r == ids@.no_duplicates(),
{
    let n = ids.len();
    let mut i: usize = 0;
    while i < n
        invariant
            n == ids@.len(),
            i <= n,
            forall|a: int, b: int| 0 <= a < b < n && a < i ==> ids@[a] != ids@[b],
        decreases n - i,
    {
        let mut j: usize = i + 1;
        while j < n
            invariant
                n == ids@.len(),
                i < n,
                i < j <= n,
                forall|a: int, b: int| 0 <= a < b < n && a < i ==> ids@[a] != ids@[b],
                forall|b: int| i < b < j ==> ids@[i as int] != ids@[b],
            decreases n - j,
        {
            if ids[i] == ids[j] {
                return false;
            }
            j = j + 1;
        }
        i = i + 1;
    }
    true
}

/// Sort distinct ids in increasing order (insertion sort).
pub fn sort_ids(ids: &[u32]) -> (r: Vec<u32>)
    requires
        ids@.no_duplicates(),
    ensures
        strictly_sorted(r@),
        r@.len() == ids@.len(),
        r@.no_duplicates(),
        forall|c: u32| r@.contains(c) <==> ids@.contains(c),
{
    let mut out: Vec<u32> = Vec::new();
    let mut i: usize = 0;
    while i < ids.len()
        invariant
            i <= ids@.len(),
            ids@.no_duplicates(),
            strictly_sorted(out@),
            out@.len() == i,
            forall|c: u32| out@.contains(c) <==> ids@.subrange(0, i as int).contains(c),
        decreases ids@.len() - i,
    {
        let x = ids[i];
        assert(!out@.contains(x)) by {
            let sub0 = ids@.subrange(0, i as int);
            if out@.contains(x) {
                let k = choose|k: int| 0 <= k < sub0.len() && sub0[k] == x;
                assert(ids@[k] == ids@[i as int]);
            }
        }
        let mut p: usize = 0;
        while p < out.len() && out[p] < x
            invariant
                p <= out@.len(),
                forall|k: int| 0 <= k < p ==> out@[k] < x,
            decreases out@.len() - p,
        {
            p = p + 1;
        }
        let ghost before = out@;
        out.insert(p, x);
        proof {
            assert(forall|k: int| 0 <= k < p ==> before[k] < x);
            if p < before.len() {
                assert(before[p as int] != x);
                assert(before[p as int] > x);
                assert(forall|k: int| p <= k < before.len() ==> before[p as int] <= before[k]);
            }
            assert forall|a: int, b: int| 0 <= a < b < out@.len() implies out@[a] < out@[b] by {
                if b < p {
                } else if b == p {
                } else if a < p {
                    assert(out@[b] == before[b - 1]);
                } else if a == p {
                    assert(out@[b] == before[b - 1]);
                } else {
                    assert(out@[a] == before[a - 1] && out@[b] == before[b - 1]);
                }
            }
            let sub0 = ids@.subrange(0, i as int);
            let sub1 = ids@.subrange(0, i as int + 1);
            assert forall|c: u32| out@.contains(c) <==> sub1.contains(c) by {
                if out@.contains(c) {
                    let k = choose|k: int| 0 <= k < out@.len() && out@[k] == c;
                    if k < p {
                        assert(before[k] == c);
                        assert(before.contains(c));
                        let j = choose|j: int| 0 <= j < sub0.len() && sub0[j] == c;
                        assert(sub1[j] == c);
                    } else if k == p {
                        assert(sub1[i as int] == c);
                    } else {
                        assert(before[k - 1] == c);
                        assert(before.contains(c));
                        let j = choose|j: int| 0 <= j < sub0.len() && sub0[j] == c;
                        assert(sub1[j] == c);
                    }
                }
                if sub1.contains(c) {
                    let j = choose|j: int| 0 <= j < sub1.len() && sub1[j] == c;
                    if j == i {
                        assert(out@[p as int] == c);
                    } else {
                        assert(sub0[j] == c);
                        assert(before.contains(c));
                        let k = choose|k: int| 0 <= k < before.len() && before[k] == c;
                        if k < p {
                            assert(out@[k] == c);
                        } else {
                            assert(out@[k + 1] == c);
                        }
                    }
                }
            }
        }
        i = i + 1;
    }
    proof {
        assert(ids@.subrange(0, ids@.len() as int) =~= ids@);
        assert forall|a: int, b: int| 0 <= a < out@.len() && 0 <= b < out@.len() && a != b implies out@[a] != out@[b] by {
            if a < b {
            } else {
            }
        }
    }
    out
}

/// The components described by instances with distinct ids: component id →
/// the serialized values of the instance with that id.
pub open spec fn spec_instances(comps: Seq<ComponentInstance>) -> Map<u32, Seq<u8>> {
    Map::new(
        |c: u32| exists|i: int| 0 <= i < comps.len() && comps[i].component_id == c,
        |c: u32|
            {
                let i = choose|i: int| 0 <= i < comps.len() && comps[i].component_id == c;
                spec_serialize(comps[i].values@, comps[i].values@.len() as int)
            },
    )
}

/// The instances have distinct component ids.
pub open spec fn instances_distinct(comps: Seq<ComponentInstance>) -> bool {
    forall|i: int, j: int|
        0 <= i < comps.len() && 0 <= j < comps.len() && i != j ==> comps[i].component_id
            != comps[j].component_id
}

/// `s` and `t` hold the same elements.
pub open spec fn same_elements(s: Seq<u32>, t: Seq<u32>) -> bool {
    forall|c: u32| #[trigger] s.contains(c) == t.contains(c)
}

spec fn component_ids_eq(s: Seq<u32>, k: int, c: u32) -> bool {
    s[k] == c
}

/// `ids` holds exactly the elements of `s`.
pub open spec fn ids_are(ids: Seq<u32>, s: Set<u32>) -> bool {
    forall|c: u32| #[trigger] ids.contains(c) == s.contains(c)
}

/// Two strictly increasing sequences with the same elements are equal.
pub proof fn lemma_sorted_unique(a: Seq<u32>, b: Seq<u32>)
    requires
        strictly_sorted(a),
        strictly_sorted(b),
        forall|c: u32| #[trigger] a.contains(c) == b.contains(c),
    ensures
        a == b,
    decreases a.len() + b.len(),
{
    if a.len() == 0 {
        if b.len() > 0 {
            assert(b.contains(b[0]));
            assert(a.contains(b[0]) == b.contains(b[0]));
        }
        assert(a =~= b);
    } else if b.len() == 0 {
        assert(a.contains(a[0]));
    } else {
        // the largest elements agree
        let x = a.last();
        let y = b.last();
        assert(a.contains(x));
        assert(b.contains(y));
        assert(a.contains(y) == b.contains(y));
        let i = choose|i: int| 0 <= i < b.len() && b[i] == x;
        let j = choose|j: int| 0 <= j < a.len() && a[j] == y;
        assert(x == y) by {
            if i < b.len() - 1 {
                assert(b[i] < b[b.len() - 1]);
            }
            if j < a.len() - 1 {
                assert(a[j] < a[a.len() - 1]);
            }
        }
        let a2 = a.drop_last();
        let b2 = b.drop_last();
        assert forall|c: u32| #[trigger] a2.contains(c) == b2.contains(c) by {
            if a2.contains(c) {
                let k = choose|k: int| 0 <= k < a2.len() && a2[k] == c;
                assert(a[k] < x);
                assert(a[k] == c);
                assert(a.contains(c));
                assert(a.contains(c) == b.contains(c));
                assert(b.contains(c));
                let l = choose|l: int| 0 <= l < b.len() && b[l] == c;
                assert(l != b.len() - 1);
                assert(b2[l] == c);
            }
            if b2.contains(c) {
                let k = choose|k: int| 0 <= k < b2.len() && b2[k] == c;
                assert(b[k] < y);
                assert(b.contains(c));
                assert(a.contains(c) == b.contains(c));
                let l = choose|l: int| 0 <= l < a.len() && a[l] == c;
                assert(l != a.len() - 1);
                assert(a2[l] == c);
            }
        }
        lemma_sorted_unique(a2, b2);
        assert(a =~= a2.push(x));
        assert(b =~= b2.push(y));
    }
}

/// Bytes recorded for component `c` in a list of (component id, bytes) pairs.
pub open spec fn pair_bytes(pairs: Seq<(u32, Vec<u8>)>, c: u32) -> Seq<u8> {
    pairs[choose|i: int| 0 <= i < pairs.len() && pairs[i].0 == c].1@
}

/// The component ids of the pairs are distinct.
pub open spec fn pairs_distinct(pairs: Seq<(u32, Vec<u8>)>) -> bool {
    forall|i: int, j: int| 0 <= i < pairs.len() && 0 <= j < pairs.len() && i != j ==> pairs[i].0 != pairs[j].0
}

/// Each of the columns has a pair with its component id and bytes of its element size.
pub open spec fn pairs_cover(pairs: Seq<(u32, Vec<u8>)>, cols: Seq<Column>) -> bool {
    forall|k: int| 0 <= k < cols.len() ==> has_pair(pairs, (#[trigger] cols[k]).component_id, cols[k].element_size as nat)
}

/// Some pair records component `c` with `size` bytes.
pub open spec fn has_pair(pairs: Seq<(u32, Vec<u8>)>, c: u32, size: nat) -> bool {
    exists|i: int| 0 <= i < pairs.len() && pairs[i].0 == c && pairs[i].1@.len() == size
}

/// Find the bytes recorded for component `c`.
fn find_pair_bytes<'p>(pairs: &'p Vec<(u32, Vec<u8>)>, c: u32) -> (r: &'p Vec<u8>)
    requires
        pairs_distinct(pairs@),
        exists|i: int| 0 <= i < pairs@.len() && pairs@[i].0 == c,
    ensures
        r@ == pair_bytes(pairs@, c),
{
    let mut i: usize = 0;
    while i < pairs.len()
        invariant
            i <= pairs@.len(),
            pairs_distinct(pairs@),
            forall|k: int| 0 <= k < i ==> pairs@[k].0 != c,
            exists|j: int| 0 <= j < pairs@.len() && pairs@[j].0 == c,
        decreases pairs@.len() - i,
    {
        if pairs[i].0 == c {
            let ghost j = choose|j: int| 0 <= j < pairs@.len() && pairs@[j].0 == c;
            assert(j == i as int);
            return &pairs[i].1;
        }
        i = i + 1;
    }
    proof {
        let j = choose|j: int| 0 <= j < pairs@.len() && pairs@[j].0 == c;
        assert(pairs@[j].0 != c);
    }
    &pairs[0].1
}

/// Pair `k` records component `ids[k]` with bytes of that component's size.
pub open spec fn pairs_fit(pairs: Seq<(u32, Vec<u8>)>, ids: Seq<u32>, schemas: Seq<ComponentSchema>) -> bool {
    &&& pairs.len() == ids.len()
    &&& forall|k: int|
        0 <= k < ids.len() ==> {
            &&& (#[trigger] pairs[k]).0 == ids[k]
            &&& (ids[k] as int) < schemas.len()
            &&& pairs[k].1@.len() == schemas[ids[k] as int].size
        }
}

/// With distinct ids, the bytes recorded for pair `i`'s component are pair `i`'s bytes.
pub proof fn lemma_pair_bytes(pairs: Seq<(u32, Vec<u8>)>, i: int)
    requires
        pairs_distinct(pairs),
        0 <= i < pairs.len(),
    ensures
        pair_bytes(pairs, pairs[i].0) == pairs[i].1@,
{
    let j = choose|j: int| 0 <= j < pairs.len() && pairs[j].0 == pairs[i].0;
    assert(j == i);
}

/// Append `entity` and, in every column, the bytes recorded for its component.
fn fill_row(chunk: &mut Chunk, entity: Entity, pairs: &Vec<(u32, Vec<u8>)>)
    requires
        pairs_distinct(pairs@),
        pairs_cover(pairs@, old(chunk).columns@),
    ensures
        final(chunk).entities@ == old(chunk).entities@.push(entity),
        final(chunk).columns@.len() == old(chunk).columns@.len(),
        forall|k: int|
            0 <= k < old(chunk).columns@.len() ==> {
                &&& (#[trigger] final(chunk).columns@[k]).component_id == old(chunk).columns@[k].component_id
                &&& final(chunk).columns@[k].element_size == old(chunk).columns@[k].element_size
                &&& final(chunk).columns@[k].data@ == old(chunk).columns@[k].data@ + pair_bytes(
                    pairs@,
                    old(chunk).columns@[k].component_id,
                )
            },
{
    chunk.push_entity(entity);
    let n = chunk.columns.len();
    let mut k: usize = 0;
    while k < n
        invariant
            n == chunk.columns@.len(),
            n == old(chunk).columns@.len(),
            k <= n,
            pairs_distinct(pairs@),
            pairs_cover(pairs@, old(chunk).columns@),
            chunk.entities@ == old(chunk).entities@.push(entity),
            forall|j: int| k <= j < n ==> #[trigger] chunk.columns@[j] == old(chunk).columns@[j],
            forall|j: int|
                0 <= j < k ==> {
                    &&& (#[trigger] chunk.columns@[j]).component_id == old(chunk).columns@[j].component_id
                    &&& chunk.columns@[j].element_size == old(chunk).columns@[j].element_size
                    &&& chunk.columns@[j].data@ == old(chunk).columns@[j].data@ + pair_bytes(
                        pairs@,
                        old(chunk).columns@[j].component_id,
                    )
                },
        decreases n - k,
    {
        let cid = chunk.columns[k].component_id;
        proof {
            assert(chunk.columns@[k as int] == old(chunk).columns@[k as int]);
            assert(has_pair(pairs@, old(chunk).columns@[k as int].component_id, old(chunk).columns@[k as int].element_size as nat));
        }
        let bytes = find_pair_bytes(pairs, cid);
        proof {
            let i = choose|i: int|
                0 <= i < pairs@.len() && pairs@[i].0 == old(chunk).columns@[k as int].component_id
                    && pairs@[i].1@.len() == old(chunk).columns@[k as int].element_size;
            let j = choose|j: int| 0 <= j < pairs@.len() && pairs@[j].0 == cid;
            assert(i == j);
        }
        chunk.columns[k].push_bytes(bytes.as_slice());
        k = k + 1;
    }
}

impl World {
    // ─────────────────────────────────────────────
    // Abstract view
    // ─────────────────────────────────────────────

    /// Current generation of every entity slot.
    pub open spec fn spec_generations(&self) -> Seq<u32> {
        self.entity_manager.spec_generations()
    }

    /// `e` names an existing slot with its current generation.
    pub open spec fn spec_is_alive(&self, e: Entity) -> bool {
        self.entity_manager.spec_is_alive(e)
    }

    /// Registered component schemas, by id.
    pub open spec fn spec_schemas(&self) -> Seq<ComponentSchema> {
        self.component_registry.spec_schemas()
    }

    /// Slot `id` is placed in archetype storage.
    pub open spec fn spec_placed(&self, id: int) -> bool {
        &&& 0 <= id < self.locations@.len()
        &&& self.locations@[id].spec_is_valid()
    }

    /// Bytes of component `c` of the entity stored at archetype `a`, chunk `ch`, row `r`.
    pub open spec fn spec_cell(&self, a: int, ch: int, c: u32, r: nat) -> Seq<u8> {
        let arch = self.archetypes@[a];
        let col = arch.chunks@[ch].columns@[arch.component_ids@.index_of(c)];
        spec_row(col.data@, col.element_size as nat, r)
    }

    /// The components of entity slot `id`: component id → its bytes (empty
    /// when the slot is not placed).
    pub open spec fn spec_components(&self, id: int) -> Map<u32, Seq<u8>> {
        if self.spec_placed(id) {
            let loc = self.locations@[id];
            let arch = self.archetypes@[loc.archetype_id as int];
            Map::new(
                |c: u32| arch.component_ids@.contains(c),
                |c: u32| self.spec_cell(loc.archetype_id as int, loc.chunk_index as int, c, loc.row as nat),
            )
        } else {
            Map::empty()
        }
    }

    /// Some archetype has exactly the component ids in `s`.
    pub open spec fn spec_has_archetype(&self, s: Set<u32>) -> bool {
        exists|a: int| 0 <= a < self.archetypes@.len() && #[trigger] ids_are(self.archetypes@[a].component_ids@, s)
    }

    /// `other` still has every archetype of `self`, in place and with the same
    /// component ids (it may have more).
    pub open spec fn spec_keeps_archetypes(&self, other: &World) -> bool {
        &&& self.archetypes@.len() <= other.archetypes@.len()
        &&& forall|a: int|
            0 <= a < self.archetypes@.len() ==> (#[trigger] other.archetypes@[a]).component_ids@
                == self.archetypes@[a].component_ids@
    }

    /// The number of archetypes once the component set `s` has one: the
    /// current count when some archetype already has exactly `s`, one more
    /// otherwise.
    pub open spec fn spec_archetypes_with(&self, s: Set<u32>) -> nat {
        if self.spec_has_archetype(s) {
            self.archetypes@.len()
        } else {
            self.archetypes@.len() + 1
        }
    }

    /// The bytes a well-typed component instance is stored as.
    pub open spec fn spec_instance_bytes(&self, c: ComponentInstance) -> Seq<u8> {
        spec_serialize(c.values@, c.values@.len() as int)
    }

    /// `c` names a registered component and holds one value of the right type per field.
    pub open spec fn spec_instance_ok(&self, c: ComponentInstance) -> bool {
        &&& (c.component_id as int) < self.spec_schemas().len()
        &&& values_match(self.spec_schemas()[c.component_id as int].fields@, c.values@)
    }

    /// Every other entity slot keeps its components.
    pub open spec fn spec_others_unchanged(&self, other: &World, id: int) -> bool {
        forall|x: int| x != id ==> #[trigger] other.spec_components(x) == self.spec_components(x)
    }

    // ─────────────────────────────────────────────
    // Well-formedness
    // ─────────────────────────────────────────────

    /// Archetype `a` is consistent with its index and the registry.
    pub closed spec fn arch_ok(&self, a: int) -> bool {
        let arch = self.archetypes@[a];
        let ids = arch.component_ids@;
        &&& arch.wf()
        &&& arch.id == a
        &&& strictly_sorted(ids)
        &&& forall|k: int|
            0 <= k < ids.len() ==> {
                &&& (#[trigger] ids[k] as int) < self.spec_schemas().len()
                &&& arch.template_columns@[k].element_size == self.spec_schemas()[ids[k] as int].size
            }
    }

    /// Slot `id`'s location (if valid) points at a row holding it.
    pub closed spec fn loc_ok(&self, id: int) -> bool {
        let loc = self.locations@[id];
        loc.spec_is_valid() ==> {
            &&& (loc.archetype_id as int) < self.archetypes@.len()
            &&& (loc.chunk_index as int) < self.archetypes@[loc.archetype_id as int].chunks@.len()
            &&& (loc.row as int) < self.archetypes@[loc.archetype_id as int].chunks@[loc.chunk_index as int].entities@.len()
            &&& self.archetypes@[loc.archetype_id as int].chunks@[loc.chunk_index as int].entities@[loc.row as int]
                == Entity { id: id as u32, generation: self.spec_generations()[id] }
            &&& !self.entity_manager.spec_free().contains(id as u32)
        }
    }

    /// The entity stored at archetype `a`, chunk `c`, row `r` has its location there.
    pub closed spec fn stored_ok(&self, a: int, c: int, r: int) -> bool {
        (0 <= a < self.archetypes@.len() && 0 <= c < self.archetypes@[a].chunks@.len() && 0 <= r
            < self.archetypes@[a].chunks@[c].entities@.len()) ==> {
            let e = self.archetypes@[a].chunks@[c].entities@[r];
            &&& (e.id as int) < self.locations@.len()
            &&& self.locations@[e.id as int] == EntityLocation {
                archetype_id: a as u32,
                chunk_index: c as u32,
                row: r as u32,
            }
        }
    }

    /// The archetype registry maps each archetype's id list to it, and nothing else.
    pub closed spec fn registry_ok(&self) -> bool {
        let m = self.archetype_registry.spec_map();
        &&& forall|key: Seq<u32>|
            #[trigger] m.dom().contains(key) ==> {
                &&& (m[key] as int) < self.archetypes@.len()
                &&& self.archetypes@[m[key] as int].component_ids@ == key
            }
        &&& forall|a: int|
            0 <= a < self.archetypes@.len() ==> {
                &&& m.dom().contains((#[trigger] self.archetypes@[a]).component_ids@)
                &&& m[self.archetypes@[a].component_ids@] == a
            }
    }

    /// Internal consistency of the world.
    pub closed spec fn wf(&self) -> bool {
        &&& self.entity_manager.wf()
        &&& self.resources.wf()
        &&& self.events.wf()
        &&& self.component_registry.wf()
        &&& self.locations@.len() == self.spec_generations().len()
        &&& self.archetypes@.len() < u32::MAX
        &&& forall|i: int| 0 <= i < self.spec_schemas().len() ==> #[trigger] self.schema_ok(i)
        &&& forall|a: int| 0 <= a < self.archetypes@.len() ==> #[trigger] self.arch_ok(a)
        &&& forall|id: int| 0 <= id < self.locations@.len() ==> #[trigger] self.loc_ok(id)
        &&& forall|a: int, c: int, r: int| #[trigger] self.stored_ok(a, c, r)
        &&& self.registry_ok()
    }

    /// `extra` more entities can be stored: `extra` more archetypes, and in
    /// every archetype `extra` more chunks, still get ids that fit in a `u32`
    /// (with one to spare).
    pub open spec fn spec_room_for(&self, extra: nat) -> bool {
        &&& self.archetypes@.len() + extra + 1 < u32::MAX
        &&& forall|a: int|
            0 <= a < self.archetypes@.len() ==> (#[trigger] self.archetypes@[a]).chunks@.len() + extra + 1 < u32::MAX
    }

    /// One more entity can be stored.
    pub open spec fn spec_storage_room(&self) -> bool {
        self.spec_room_for(0)
    }

    /// `other` is this world with at most `na` more archetypes, at most `d`
    /// more chunks in every archetype, and at most `d` chunks in each new one.
    pub open spec fn spec_grown(&self, other: &World, na: nat, d: nat) -> bool {
        &&& other.archetypes@.len() <= self.archetypes@.len() + na
        &&& forall|a: int|
            0 <= a < other.archetypes@.len() ==> (#[trigger] other.archetypes@[a]).chunks@.len() <= (if a
                < self.archetypes@.len() {
                self.archetypes@[a].chunks@.len()
            } else {
                0
            }) + d
    }

    /// Another entity can be created and stored.
    pub open spec fn spec_has_room(&self) -> bool {
        &&& self.entity_manager.spec_can_create()
        &&& self.spec_storage_room()
    }

    // ─────────────────────────────────────────────
    // Construction and registration
    // ─────────────────────────────────────────────

    pub fn new() -> (r: Self)
        ensures
            r.wf(),
            forall|n: Seq<char>| #[trigger] r.component_registry.spec_id_of(n) is None,
            forall|n: Seq<char>| #[trigger] r.resources.spec_id_of(n) is None,
            forall|n: Seq<char>| #[trigger] r.events.spec_id_of(n) is None,
            r.spec_generations() == Seq::<u32>::empty(),
            r.entity_manager.spec_alive_count() == 0,
            r.spec_schemas() == Seq::<ComponentSchema>::empty(),
            r.archetypes@ == Seq::<Archetype>::empty(),
            r.resources.spec_schemas() == Seq::<ComponentSchema>::empty(),
            r.resources.spec_data() == Map::<u32, Seq<u8>>::empty(),
            r.events.spec_schemas() == Seq::<ComponentSchema>::empty(),
            r.events.spec_queues() == Map::<u32, Seq<Seq<u8>>>::empty(),
            forall|k: nat| k + 1 < u32::MAX ==> #[trigger] r.spec_room_for(k),
    {
        let w = World {
            entity_manager: EntityManager::new(),
            archetypes: Vec::new(),
            locations: Vec::new(),
            component_registry: ComponentRegistry::new(),
            archetype_registry: ArchetypeRegistry::new(),
            resources: Resources::new(),
            events: Events::new(),
        };
        assert forall|a: int, c: int, r: int| #[trigger] w.stored_ok(a, c, r) by {}
        w
    }

    /// Register a component schema (idempotent by name) and return its id.
    /// The schema must be well formed and at least one byte wide.
    pub fn register_component(&mut self, schema: ComponentSchema) -> (id: u32)
        requires
            old(self).wf(),
            schema.wf(),
            schema.size > 0,
            old(self).spec_schemas().len() < u32::MAX,
        ensures
            final(self).wf(),
            final(self).component_registry.spec_id_of(schema.name@) == Some(id),
            (id as int) < final(self).spec_schemas().len(),
            forall|n: Seq<char>| n != schema.name@ ==> #[trigger] final(self).component_registry.spec_id_of(n) == old(self).component_registry.spec_id_of(n),
            match old(self).component_registry.spec_id_of(schema.name@) {
                Some(existing) => {
                    &&& id == existing
                    &&& final(self).spec_schemas() == old(self).spec_schemas()
                },
                None => {
                    &&& id == old(self).spec_schemas().len()
                    &&& final(self).spec_schemas().drop_last() == old(self).spec_schemas()
                    &&& final(self).spec_schemas().last().id == id
                    &&& final(self).spec_schemas().last().name@ == schema.name@
                    &&& final(self).spec_schemas().last().size == schema.size
                    &&& final(self).spec_schemas().last().fields@ == schema.fields@
                },
            },
            forall|x: int| #[trigger] final(self).spec_components(x) == old(self).spec_components(x),
            final(self).entity_manager == old(self).entity_manager,
            final(self).archetypes@ == old(self).archetypes@,
    {
        let ghost w0 = *self;
        let id = self.component_registry.register_schema(schema);
        proof {
            assert forall|i: int| 0 <= i < self.spec_schemas().len() implies #[trigger] self.schema_ok(i) by {
                if i < w0.spec_schemas().len() {
                    assert(w0.schema_ok(i));
                    assert(self.spec_schemas()[i] == w0.spec_schemas()[i]);
                }
            }
            assert forall|a: int| 0 <= a < self.archetypes@.len() implies #[trigger] self.arch_ok(a) by {
                assert(w0.arch_ok(a));
                let ids = self.archetypes@[a].component_ids@;
                assert forall|k: int| 0 <= k < ids.len() implies {
                    &&& (#[trigger] ids[k] as int) < self.spec_schemas().len()
                    &&& self.archetypes@[a].template_columns@[k].element_size == self.spec_schemas()[ids[k] as int].size
                } by {
                    assert(w0.spec_schemas()[ids[k] as int] == self.spec_schemas()[ids[k] as int]);
                }
            }
            assert forall|i: int| 0 <= i < self.locations@.len() implies #[trigger] self.loc_ok(i) by {
                assert(w0.loc_ok(i));
            }
            assert forall|a: int, c: int, r: int| #[trigger] self.stored_ok(a, c, r) by {
                assert(w0.stored_ok(a, c, r));
            }
            assert(self.registry_ok()) by {
                assert(w0.registry_ok());
            }
            assert forall|x: int| #[trigger] self.spec_components(x) == w0.spec_components(x) by {
                assert(self.spec_components(x) =~= w0.spec_components(x));
            }
        }
        id
    }


    // ─────────────────────────────────────────────
    // Archetypes
    // ─────────────────────────────────────────────

    /// Return the archetype for the component set `component_ids` (distinct,
    /// registered ids, in any order), creating it (with no chunks) if needed.
    pub fn create_archetype(&mut self, component_ids: Vec<u32>) -> (r: u32)
        requires
            old(self).wf(),
            component_ids@.no_duplicates(),
            forall|k: int| 0 <= k < component_ids@.len() ==> (#[trigger] component_ids@[k] as int) < old(self).spec_schemas().len(),
            old(self).archetypes@.len() + 1 < u32::MAX,
        ensures
            final(self).wf(),
            (r as int) < final(self).archetypes@.len(),
            strictly_sorted(final(self).archetypes@[r as int].component_ids@),
            forall|c: u32| #[trigger] final(self).archetypes@[r as int].component_ids@.contains(c) <==> component_ids@.contains(c),
            final(self).archetypes@.len() == old(self).archetypes@.len() || {
                &&& final(self).archetypes@.len() == old(self).archetypes@.len() + 1
                &&& r == old(self).archetypes@.len()
                &&& final(self).archetypes@[r as int].chunks@.len() == 0
            },
            forall|a: int| 0 <= a < old(self).archetypes@.len() ==> #[trigger] final(self).archetypes@[a] == old(self).archetypes@[a],
            final(self).archetypes@.len() == old(self).archetypes@.len() <==> exists|a: int|
                0 <= a < old(self).archetypes@.len() && same_elements(#[trigger] old(self).archetypes@[a].component_ids@, component_ids@),
            final(self).archetypes@.len() == old(self).spec_archetypes_with(component_ids@.to_set()),
            final(self).entity_manager == old(self).entity_manager,
            final(self).locations == old(self).locations,
            final(self).component_registry == old(self).component_registry,
            forall|x: int| #[trigger] final(self).spec_components(x) == old(self).spec_components(x),
            forall|s: Set<u32>| #[trigger] old(self).spec_has_archetype(s) ==> final(self).spec_has_archetype(s),
            final(self).spec_has_archetype(component_ids@.to_set()),
            old(self).spec_keeps_archetypes(final(self)),
            old(self).spec_grown(final(self), 1, 0),
    {
        let ghost w0 = *self;
        let sorted = sort_ids(component_ids.as_slice());
        match self.archetype_registry.get(sorted.as_slice()) {
            Some(id) => {
                proof {
                    assert(self.registry_ok());
                    assert(same_elements(self.archetypes@[id as int].component_ids@, component_ids@));
                    assert(ids_are(self.archetypes@[id as int].component_ids@, component_ids@.to_set()));
                }
                return id;
            },
            None => {},
        }
        proof {
            assert(self.registry_ok());
            assert forall|a: int| 0 <= a < self.archetypes@.len() implies !same_elements(#[trigger] self.archetypes@[a].component_ids@, component_ids@) by {
                assert(self.arch_ok(a));
                if same_elements(self.archetypes@[a].component_ids@, component_ids@) {
                    lemma_sorted_unique(self.archetypes@[a].component_ids@, sorted@);
                }
            }
        }
        proof {
            if self.spec_has_archetype(component_ids@.to_set()) {
                let a = choose|a: int| 0 <= a < self.archetypes@.len() && #[trigger] ids_are(self.archetypes@[a].component_ids@, component_ids@.to_set());
                assert(same_elements(self.archetypes@[a].component_ids@, component_ids@));
            }
        }
        proof {
            assert forall|k: int| 0 <= k < sorted@.len() implies (#[trigger] sorted@[k] as int) < self.spec_schemas().len() by {
                assert(sorted@.contains(sorted@[k]));
                assert(component_ids@.contains(sorted@[k]));
                let j = choose|j: int| 0 <= j < component_ids@.len() && component_ids@[j] == sorted@[k];
                assert((component_ids@[j] as int) < self.spec_schemas().len());
            }
        }
        let mut mask = ComponentMask::new();
        let mut element_sizes: Vec<usize> = Vec::new();
        let mut i: usize = 0;
        while i < sorted.len()
            invariant
                i <= sorted@.len(),
                self.component_registry == w0.component_registry,
                forall|k: int| 0 <= k < sorted@.len() ==> (#[trigger] sorted@[k] as int) < self.spec_schemas().len(),
                element_sizes@.len() == i,
                forall|k: int| 0 <= k < i ==> #[trigger] element_sizes@[k] == self.spec_schemas()[sorted@[k] as int].size,
                forall|b: nat| #[trigger] mask@.contains(b) <==> exists|k: int| 0 <= k < i && sorted@[k] as nat == b,
            decreases sorted@.len() - i,
        {
            let cid = sorted[i];
            let schema = self.component_registry.get(cid).unwrap();
            element_sizes.push(schema.size);
            let ghost m0 = mask@;
            mask.set(cid as usize);
            proof {
                assert forall|b: nat| #[trigger] mask@.contains(b) <==> exists|k: int| 0 <= k < i + 1 && sorted@[k] as nat == b by {
                    if b == cid as nat {
                        assert(sorted@[i as int] as nat == b);
                    }
                    if exists|k: int| 0 <= k < i + 1 && sorted@[k] as nat == b {
                        let k = choose|k: int| 0 <= k < i + 1 && sorted@[k] as nat == b;
                        if k < i {
                            assert(m0.contains(b));
                        }
                    }
                }
            }
            i = i + 1;
        }
        let archetype_id = self.archetypes.len() as u32;
        let ids_copy = vstd::slice::slice_to_vec(sorted.as_slice());
        let archetype = Archetype::new(archetype_id, ids_copy, element_sizes, mask);
        proof {
            assert(archetype.wf()) by {
                let ids = archetype.component_ids@;
                assert forall|k: int| 0 <= k < ids.len() implies {
                    &&& (#[trigger] archetype.spec_template()[k]).component_id == ids[k]
                    &&& archetype.spec_template()[k].element_size > 0
                    &&& archetype.spec_template()[k].data@ == Seq::<u8>::empty()
                } by {
                    assert(self.schema_ok(ids[k] as int));
                }
                assert forall|c: u32| #[trigger] index_map_contents(archetype.column_lookup).dom().contains(c) <==> ids.contains(c) by {
                    if ids.contains(c) {
                        let k = choose|k: int| 0 <= k < ids.len() && ids[k] == c;
                        assert(0 <= k < archetype.spec_template().len() && component_ids_eq(sorted@, k, c));
                    }
                }
                assert forall|b: nat| #[trigger] archetype.mask@.contains(b) <==> (b <= u32::MAX && ids.contains(b as u32)) by {
                    if archetype.mask@.contains(b) {
                        let k = choose|k: int| 0 <= k < sorted@.len() && sorted@[k] as nat == b;
                        assert(ids[k] == b as u32);
                    }
                    if b <= u32::MAX && ids.contains(b as u32) {
                        let k = choose|k: int| 0 <= k < ids.len() && ids[k] == b as u32;
                        assert(sorted@[k] as nat == b);
                    }
                }
            }
        }
        self.archetypes.push(archetype);
        self.archetype_registry.insert(sorted, archetype_id);
        proof {
            let n0 = w0.archetypes@.len();
            assert forall|a: int| 0 <= a < n0 implies #[trigger] self.archetypes@[a] == w0.archetypes@[a] by {}
            assert forall|a: int| 0 <= a < self.archetypes@.len() implies #[trigger] self.arch_ok(a) by {
                if a < n0 {
                    assert(w0.arch_ok(a));
                } else {
                    let ids = self.archetypes@[a].component_ids@;
                    assert forall|k: int| 0 <= k < ids.len() implies {
                        &&& (#[trigger] ids[k] as int) < self.spec_schemas().len()
                        &&& self.archetypes@[a].template_columns@[k].element_size == self.spec_schemas()[ids[k] as int].size
                    } by {}
                }
            }
            assert forall|i: int| 0 <= i < self.spec_schemas().len() implies #[trigger] self.schema_ok(i) by {
                assert(w0.schema_ok(i));
            }
            assert forall|i: int| 0 <= i < self.locations@.len() implies #[trigger] self.loc_ok(i) by {
                assert(w0.loc_ok(i));
            }
            assert forall|a: int, c: int, r: int| #[trigger] self.stored_ok(a, c, r) by {
                assert(w0.stored_ok(a, c, r));
            }
            assert(self.registry_ok()) by {
                assert(w0.registry_ok());
                let m = self.archetype_registry.spec_map();
                assert forall|key: Seq<u32>| #[trigger] m.dom().contains(key) implies {
                    &&& (m[key] as int) < self.archetypes@.len()
                    &&& self.archetypes@[m[key] as int].component_ids@ == key
                } by {
                    if key != sorted@ {
                        assert(w0.archetype_registry.spec_map().dom().contains(key));
                    }
                }
                assert forall|a: int| 0 <= a < self.archetypes@.len() implies {
                    &&& m.dom().contains((#[trigger] self.archetypes@[a]).component_ids@)
                    &&& m[self.archetypes@[a].component_ids@] == a
                } by {
                    if a < n0 {
                        assert(self.archetypes@[a].component_ids@ != sorted@);
                    }
                }
            }
            assert forall|x: int| #[trigger] self.spec_components(x) == w0.spec_components(x) by {
                if w0.spec_placed(x) {
                    assert(w0.loc_ok(x));
                    assert(self.spec_components(x) =~= w0.spec_components(x));
                }
            }
            assert(w0.spec_keeps_archetypes(self));
            assert forall|s: Set<u32>| #[trigger] w0.spec_has_archetype(s) implies self.spec_has_archetype(s) by {
                w0.lemma_keeps_has_archetype(self, s);
            }
            assert(ids_are(self.archetypes@[n0 as int].component_ids@, component_ids@.to_set()));
        }
        archetype_id
    }


    /// Store the unplaced, alive `entity` in a new row of archetype
    /// `archetype_id`, each column receiving the bytes recorded for its component.
    fn place_entity(&mut self, entity: Entity, archetype_id: u32, pairs: &Vec<(u32, Vec<u8>)>)
        requires
            old(self).wf(),
            (entity.id as int) < old(self).locations@.len(),
            old(self).spec_generations()[entity.id as int] == entity.generation,
            !old(self).entity_manager.spec_free().contains(entity.id),
            !old(self).spec_placed(entity.id as int),
            (archetype_id as int) < old(self).archetypes@.len(),
            old(self).archetypes@[archetype_id as int].chunks@.len() + 1 < u32::MAX,
            pairs_distinct(pairs@),
            pairs_cover(pairs@, old(self).archetypes@[archetype_id as int].template_columns@),
        ensures
            final(self).wf(),
            final(self).spec_placed(entity.id as int),
            final(self).locations@[entity.id as int].archetype_id == archetype_id,
            final(self).spec_components(entity.id as int) == Map::new(
                |c: u32| old(self).archetypes@[archetype_id as int].component_ids@.contains(c),
                |c: u32| pair_bytes(pairs@, c),
            ),
            old(self).spec_others_unchanged(final(self), entity.id as int),
            final(self).entity_manager == old(self).entity_manager,
            final(self).component_registry == old(self).component_registry,
            final(self).archetype_registry == old(self).archetype_registry,
            final(self).archetypes@.len() == old(self).archetypes@.len(),
            forall|a: int| 0 <= a < old(self).archetypes@.len() ==> {
                &&& (#[trigger] final(self).archetypes@[a]).component_ids@ == old(self).archetypes@[a].component_ids@
                &&& final(self).archetypes@[a].template_columns@ == old(self).archetypes@[a].template_columns@
            },
            forall|a: int| 0 <= a < old(self).archetypes@.len() && a != archetype_id ==>
                #[trigger] final(self).archetypes@[a] == old(self).archetypes@[a],
            final(self).archetypes@[archetype_id as int].chunks@.len() <= old(self).archetypes@[archetype_id as int].chunks@.len() + 1,
            final(self).locations@.len() == old(self).locations@.len(),
            forall|x: int| 0 <= x < old(self).locations@.len() && x != entity.id ==> #[trigger] final(self).locations@[x] == old(self).locations@[x],
            old(self).spec_grown(final(self), 0, 1),
    {
        let ghost w0 = *self;
        let ghost a = archetype_id as int;
        proof {
            assert(w0.arch_ok(a));
        }
        let archetype = &mut self.archetypes[archetype_id as usize];
        let (chunk_index, row) = archetype.allocate_row();
        let ghost arch1 = *archetype;
        proof {
            assert(chunk_fits(arch1.chunks@[chunk_index as int], arch1.template_columns@));
            let cols = arch1.chunks@[chunk_index as int].columns@;
            assert forall|k: int| 0 <= k < cols.len() implies has_pair(pairs@, (#[trigger] cols[k]).component_id, cols[k].element_size as nat) by {
                let t = arch1.template_columns@;
                assert(has_pair(pairs@, t[k].component_id, t[k].element_size as nat));
            }
            assert(pairs_cover(pairs@, cols));
        }
        fill_row(&mut archetype.chunks[chunk_index as usize], entity, pairs);
        self.locations.set(entity.id as usize, EntityLocation { archetype_id, chunk_index, row });
        proof {
            self.lemma_after_place(w0, arch1, entity, a, chunk_index as int, row as nat, pairs@);
        }
    }

    /// Bookkeeping for `place_entity`.
    proof fn lemma_after_place(
        &self,
        w0: World,
        arch1: Archetype,
        entity: Entity,
        a: int,
        ci: int,
        row: nat,
        pairs: Seq<(u32, Vec<u8>)>,
    )
        requires
            w0.wf(),
            0 <= ci,
            (entity.id as int) < w0.locations@.len(),
            w0.spec_generations()[entity.id as int] == entity.generation,
            !w0.entity_manager.spec_free().contains(entity.id),
            !w0.spec_placed(entity.id as int),
            0 <= a < w0.archetypes@.len(),
            pairs_distinct(pairs),
            arch1.wf(),
            arch1.id == w0.archetypes@[a].id,
            arch1.component_ids@ == w0.archetypes@[a].component_ids@,
            arch1.column_lookup == w0.archetypes@[a].column_lookup,
            arch1.mask@ == w0.archetypes@[a].mask@,
            arch1.template_columns@ == w0.archetypes@[a].template_columns@,
            ci + 1 == arch1.chunks@.len(),
            row == arch1.chunks@[ci].entities@.len(),
            row < CHUNK_CAPACITY,
            arch1.chunks@.len() == w0.archetypes@[a].chunks@.len() ==> arch1.chunks@ == w0.archetypes@[a].chunks@,
            arch1.chunks@.len() != w0.archetypes@[a].chunks@.len() ==> {
                &&& arch1.chunks@.len() == w0.archetypes@[a].chunks@.len() + 1
                &&& arch1.chunks@.drop_last() == w0.archetypes@[a].chunks@
                &&& arch1.chunks@.last().entities@ == Seq::<Entity>::empty()
            },
            self.archetypes@.len() == w0.archetypes@.len(),
            forall|b: int| 0 <= b < w0.archetypes@.len() && b != a ==> #[trigger] self.archetypes@[b] == w0.archetypes@[b],
            self.archetypes@[a].id == arch1.id,
            self.archetypes@[a].component_ids@ == arch1.component_ids@,
            self.archetypes@[a].column_lookup == arch1.column_lookup,
            self.archetypes@[a].mask@ == arch1.mask@,
            self.archetypes@[a].template_columns@ == arch1.template_columns@,
            self.archetypes@[a].chunks@.len() == arch1.chunks@.len(),
            forall|j: int| 0 <= j < arch1.chunks@.len() && j != ci ==> #[trigger] self.archetypes@[a].chunks@[j] == arch1.chunks@[j],
            self.archetypes@[a].chunks@[ci].entities@ == arch1.chunks@[ci].entities@.push(entity),
            self.archetypes@[a].chunks@[ci].columns@.len() == arch1.chunks@[ci].columns@.len(),
            forall|k: int|
                0 <= k < arch1.chunks@[ci].columns@.len() ==> {
                    &&& (#[trigger] self.archetypes@[a].chunks@[ci].columns@[k]).component_id == arch1.chunks@[ci].columns@[k].component_id
                    &&& self.archetypes@[a].chunks@[ci].columns@[k].element_size == arch1.chunks@[ci].columns@[k].element_size
                    &&& self.archetypes@[a].chunks@[ci].columns@[k].data@ == arch1.chunks@[ci].columns@[k].data@ + pair_bytes(
                        pairs,
                        arch1.chunks@[ci].columns@[k].component_id,
                    )
                },
            pairs_cover(pairs, arch1.template_columns@),
            self.locations@ == w0.locations@.update(
                entity.id as int,
                EntityLocation { archetype_id: a as u32, chunk_index: ci as u32, row: row as u32 },
            ),
            self.entity_manager == w0.entity_manager,
            self.component_registry == w0.component_registry,
            self.archetype_registry == w0.archetype_registry,
            self.resources == w0.resources,
            self.events == w0.events,
        ensures
            self.wf(),
            self.spec_components(entity.id as int) == Map::new(
                |c: u32| w0.archetypes@[a].component_ids@.contains(c),
                |c: u32| pair_bytes(pairs, c),
            ),
            w0.spec_others_unchanged(self, entity.id as int),
    {
        let eid = entity.id as int;
        let arch = self.archetypes@[a];
        let t = arch.template_columns@;
        let ids = arch.component_ids@;
        let n0 = arch1.chunks@[ci].entities@.len();
        assert(w0.arch_ok(a));
        assert(chunk_fits(arch1.chunks@[ci], t));
        // every column of the filled chunk gained exactly one row
        assert forall|k: int| 0 <= k < t.len() implies
            pair_bytes(pairs, (#[trigger] t[k]).component_id).len() == t[k].element_size by {
            assert(has_pair(pairs, t[k].component_id, t[k].element_size as nat));
            let i = choose|i: int| 0 <= i < pairs.len() && pairs[i].0 == t[k].component_id && pairs[i].1@.len()
                == t[k].element_size;
            let j = choose|j: int| 0 <= j < pairs.len() && pairs[j].0 == t[k].component_id;
            assert(i == j);
        }
        assert(arch.wf()) by {
            assert forall|j: int| 0 <= j < arch.chunks@.len() implies chunk_fits(#[trigger] arch.chunks@[j], t) by {
                if j != ci {
                    assert(arch.chunks@[j] == arch1.chunks@[j]);
                } else {
                    let ch = arch.chunks@[j];
                    assert forall|k: int| 0 <= k < t.len() implies {
                        &&& (#[trigger] ch.columns@[k]).component_id == t[k].component_id
                        &&& ch.columns@[k].element_size == t[k].element_size
                        &&& ch.columns@[k].data@.len() == ch.entities@.len() * t[k].element_size
                    } by {
                        let d = arch1.chunks@[ci].columns@[k].data@;
                        let b = pair_bytes(pairs, t[k].component_id);
                        lemma_push_row(d, t[k].element_size as nat, n0, b);
                    }
                }
            }
        }
        assert forall|b: int| 0 <= b < self.archetypes@.len() implies #[trigger] self.arch_ok(b) by {
            assert(w0.arch_ok(b));
            if b == a {
                assert forall|k: int| 0 <= k < ids.len() implies {
                    &&& (#[trigger] ids[k] as int) < self.spec_schemas().len()
                    &&& self.archetypes@[b].template_columns@[k].element_size == self.spec_schemas()[ids[k] as int].size
                } by {
                    assert(w0.archetypes@[a].component_ids@[k] == ids[k]);
                }
            }
        }
        assert forall|i: int| 0 <= i < self.spec_schemas().len() implies #[trigger] self.schema_ok(i) by {
            assert(w0.schema_ok(i));
        }
        assert forall|i: int| 0 <= i < self.locations@.len() implies #[trigger] self.loc_ok(i) by {
            assert(w0.loc_ok(i));
            if i != eid && self.locations@[i].spec_is_valid() {
                let loc = self.locations@[i];
                if loc.archetype_id as int == a {
                    if loc.chunk_index as int == ci {
                        assert(arch1.chunks@[ci].entities@.len() == w0.archetypes@[a].chunks@[ci].entities@.len());
                        assert(self.archetypes@[a].chunks@[ci].entities@[loc.row as int] == arch1.chunks@[ci].entities@[loc.row as int]);
                    } else {
                        assert(arch1.chunks@[loc.chunk_index as int] == w0.archetypes@[a].chunks@[loc.chunk_index as int]);
                    }
                }
            }
        }
        assert forall|x: int, c: int, r: int| #[trigger] self.stored_ok(x, c, r) by {
            assert(w0.stored_ok(x, c, r));
            if 0 <= x < self.archetypes@.len() && 0 <= c < self.archetypes@[x].chunks@.len() && 0 <= r
                < self.archetypes@[x].chunks@[c].entities@.len() {
                let e = self.archetypes@[x].chunks@[c].entities@[r];
                if x == a && c == ci && r == n0 {
                    assert(e == entity);
                } else if x == a && c == ci {
                    assert(e == arch1.chunks@[ci].entities@[r]);
                    if arch1.chunks@.len() != w0.archetypes@[a].chunks@.len() && ci == arch1.chunks@.len() - 1 {
                        assert(false);
                    }
                    assert(e == w0.archetypes@[a].chunks@[ci].entities@[r]);
                    assert(e.id != entity.id);
                } else if x == a {
                    assert(self.archetypes@[a].chunks@[c] == arch1.chunks@[c]);
                    assert(arch1.chunks@[c] == w0.archetypes@[a].chunks@[c]);
                    assert(e.id != entity.id);
                } else {
                    assert(e.id != entity.id);
                }
            }
        }
        assert(self.registry_ok()) by {
            assert(w0.registry_ok());
            let m = self.archetype_registry.spec_map();
            assert forall|b: int| 0 <= b < self.archetypes@.len() implies {
                &&& m.dom().contains((#[trigger] self.archetypes@[b]).component_ids@)
                &&& m[self.archetypes@[b].component_ids@] == b
            } by {
                assert(w0.archetypes@[b].component_ids@ == self.archetypes@[b].component_ids@);
            }
            assert forall|key: Seq<u32>| #[trigger] m.dom().contains(key) implies {
                &&& (m[key] as int) < self.archetypes@.len()
                &&& self.archetypes@[m[key] as int].component_ids@ == key
            } by {
                assert(w0.archetypes@[m[key] as int].component_ids@ == self.archetypes@[m[key] as int].component_ids@);
            }
        }
        // the new entity's components
        assert(self.spec_components(eid) =~= Map::new(
            |c: u32| w0.archetypes@[a].component_ids@.contains(c),
            |c: u32| pair_bytes(pairs, c),
        )) by {
            assert forall|c: u32| #[trigger] ids.contains(c) implies self.spec_cell(a, ci, c, row) == pair_bytes(pairs, c) by {
                let k = ids.index_of(c);
                assert(0 <= k < ids.len() && ids[k] == c);
                let d = arch1.chunks@[ci].columns@[k].data@;
                lemma_push_row(d, t[k].element_size as nat, n0, pair_bytes(pairs, t[k].component_id));
            }
        }
        // everybody else keeps their components
        assert forall|x: int| x != eid implies #[trigger] self.spec_components(x) == w0.spec_components(x) by {
            if w0.spec_placed(x) {
                assert(w0.loc_ok(x));
                let loc = w0.locations@[x];
                let xa = loc.archetype_id as int;
                let xc = loc.chunk_index as int;
                assert(self.locations@[x] == loc);
                if xa == a && xc == ci {
                    assert(arch1.chunks@[ci].entities@.len() == w0.archetypes@[a].chunks@[ci].entities@.len()) by {
                        if arch1.chunks@.len() != w0.archetypes@[a].chunks@.len() && ci == arch1.chunks@.len() - 1 {
                            assert(false);
                        }
                    }
                    assert forall|c: u32| #[trigger] ids.contains(c) implies self.spec_cell(a, ci, c, loc.row as nat) == w0.spec_cell(a, ci, c, loc.row as nat) by {
                        let k = ids.index_of(c);
                        assert(0 <= k < ids.len() && ids[k] == c);
                        let d = arch1.chunks@[ci].columns@[k].data@;
                        lemma_push_row(d, t[k].element_size as nat, n0, pair_bytes(pairs, t[k].component_id));
                    }
                    assert(self.spec_components(x) =~= w0.spec_components(x));
                } else if xa == a {
                    assert(self.archetypes@[a].chunks@[xc] == w0.archetypes@[a].chunks@[xc]);
                    assert(self.spec_components(x) =~= w0.spec_components(x));
                } else {
                    assert(self.spec_components(x) =~= w0.spec_components(x));
                }
            } else {
                assert(!self.spec_placed(x));
                assert(self.spec_components(x) =~= w0.spec_components(x));
            }
        }
    }

    /// Take the entity placed in slot `id` out of its chunk (swap-remove), give
    /// the entity moved into its row its new location, and mark the slot unplaced.
    fn detach(&mut self, id: u32)
        requires
            old(self).wf(),
            old(self).spec_placed(id as int),
        ensures
            final(self).wf(),
            !final(self).spec_placed(id as int),
            old(self).spec_others_unchanged(final(self), id as int),
            final(self).entity_manager == old(self).entity_manager,
            final(self).component_registry == old(self).component_registry,
            final(self).archetype_registry == old(self).archetype_registry,
            final(self).archetypes@.len() == old(self).archetypes@.len(),
            forall|a: int|
                0 <= a < old(self).archetypes@.len() ==> {
                    &&& (#[trigger] final(self).archetypes@[a]).component_ids@ == old(self).archetypes@[a].component_ids@
                    &&& final(self).archetypes@[a].chunks@.len() == old(self).archetypes@[a].chunks@.len()
                },
            old(self).spec_grown(final(self), 0, 0),
    {
        let ghost w0 = *self;
        let loc = self.locations[id as usize];
        let ghost a = loc.archetype_id as int;
        let ghost ci = loc.chunk_index as int;
        proof {
            assert(w0.loc_ok(id as int));
            assert(w0.arch_ok(a));
        }
        let archetype = &mut self.archetypes[loc.archetype_id as usize];
        let ghost ch0 = archetype.chunks@[ci];
        proof {
            assert(chunk_fits(ch0, archetype.template_columns@));
            assert forall|i: int| 0 <= i < ch0.columns@.len() implies loc.row < (#[trigger] ch0.columns@[i]).spec_len() by {
                let col = ch0.columns@[i];
                lemma_swap_remove_rows(col.data@, col.element_size as nat, ch0.entities@.len(), loc.row as nat);
            }
        }
        let moved = archetype.chunks[loc.chunk_index as usize].swap_remove_row(loc.row as usize);
        match moved {
            Some(m) => {
                proof {
                    assert(w0.stored_ok(a, ci, ch0.entities@.len() - 1));
                }
                let ml = self.locations[m.id as usize];
                self.locations.set(
                    m.id as usize,
                    EntityLocation { archetype_id: ml.archetype_id, chunk_index: ml.chunk_index, row: loc.row },
                );
            },
            None => {},
        }
        self.locations.set(id as usize, EntityLocation::invalid());
        proof {
            self.lemma_after_detach(w0, id as int, ch0);
        }
    }

    /// Bookkeeping for `detach`.
    proof fn lemma_after_detach(&self, w0: World, id: int, ch0: Chunk)
        requires
            w0.wf(),
            w0.spec_placed(id),
            ch0 == w0.archetypes@[w0.locations@[id].archetype_id as int].chunks@[w0.locations@[id].chunk_index as int],
            self.archetypes@.len() == w0.archetypes@.len(),
            forall|b: int|
                0 <= b < w0.archetypes@.len() && b != w0.locations@[id].archetype_id as int ==> #[trigger] self.archetypes@[b]
                    == w0.archetypes@[b],
            ({
                let a = w0.locations@[id].archetype_id as int;
                let ci = w0.locations@[id].chunk_index as int;
                let r = w0.locations@[id].row as int;
                let arch = self.archetypes@[a];
                let old_arch = w0.archetypes@[a];
                &&& arch.id == old_arch.id
                &&& arch.component_ids@ == old_arch.component_ids@
                &&& arch.column_lookup == old_arch.column_lookup
                &&& arch.mask@ == old_arch.mask@
                &&& arch.template_columns@ == old_arch.template_columns@
                &&& arch.chunks@.len() == old_arch.chunks@.len()
                &&& forall|j: int| 0 <= j < arch.chunks@.len() && j != ci ==> #[trigger] arch.chunks@[j] == old_arch.chunks@[j]
                &&& arch.chunks@[ci].entities@ == ch0.entities@.update(r, ch0.entities@.last()).drop_last()
                &&& arch.chunks@[ci].columns@.len() == ch0.columns@.len()
                &&& forall|k: int|
                    0 <= k < ch0.columns@.len() ==> {
                        &&& (#[trigger] arch.chunks@[ci].columns@[k]).data@ == spec_swap_remove_rows(
                            ch0.columns@[k].data@,
                            ch0.columns@[k].element_size as nat,
                            r as nat,
                        )
                        &&& arch.chunks@[ci].columns@[k].component_id == ch0.columns@[k].component_id
                        &&& arch.chunks@[ci].columns@[k].element_size == ch0.columns@[k].element_size
                    }
                &&& self.locations@ == (if r + 1 < ch0.entities@.len() {
                    w0.locations@.update(
                        ch0.entities@.last().id as int,
                        EntityLocation { archetype_id: a as u32, chunk_index: ci as u32, row: r as u32 },
                    )
                } else {
                    w0.locations@
                }).update(id, EntityLocation::spec_invalid())
            }),
            self.entity_manager == w0.entity_manager,
            self.component_registry == w0.component_registry,
            self.archetype_registry == w0.archetype_registry,
            self.resources == w0.resources,
            self.events == w0.events,
        ensures
            self.wf(),
            !self.spec_placed(id),
            w0.spec_others_unchanged(self, id),
    {
        let loc = w0.locations@[id];
        let a = loc.archetype_id as int;
        let ci = loc.chunk_index as int;
        let r = loc.row as int;
        let n = ch0.entities@.len() as int;
        let m = ch0.entities@[n - 1];
        let arch = self.archetypes@[a];
        let t = arch.template_columns@;
        let ids = arch.component_ids@;
        assert(w0.loc_ok(id));
        assert(w0.arch_ok(a));
        assert(chunk_fits(ch0, t));
        assert(w0.stored_ok(a, ci, r));
        assert(w0.stored_ok(a, ci, n - 1));
        assert(ch0.entities@[r].id == id as u32);
        if r + 1 < n {
            assert(m.id as int != id);
        }
        // rows of the changed chunk
        assert forall|k: int| 0 <= k < t.len() implies {
            &&& spec_rows(ch0.columns@[k].data@, t[k].element_size as nat) == n
            &&& (#[trigger] arch.chunks@[ci].columns@[k]).data@.len() == (n - 1) * t[k].element_size
            &&& forall|q: nat|
                q + 1 < n && q != r ==> #[trigger] spec_row(arch.chunks@[ci].columns@[k].data@, t[k].element_size as nat, q)
                    == spec_row(ch0.columns@[k].data@, t[k].element_size as nat, q)
            &&& r + 1 < n ==> spec_row(arch.chunks@[ci].columns@[k].data@, t[k].element_size as nat, r as nat)
                == spec_row(ch0.columns@[k].data@, t[k].element_size as nat, (n - 1) as nat)
        } by {
            lemma_swap_remove_rows(ch0.columns@[k].data@, t[k].element_size as nat, n as nat, r as nat);
        }
        assert(arch.wf()) by {
            assert forall|j: int| 0 <= j < arch.chunks@.len() implies chunk_fits(#[trigger] arch.chunks@[j], t) by {
                if j != ci {
                    assert(arch.chunks@[j] == w0.archetypes@[a].chunks@[j]);
                } else {
                    let ch = arch.chunks@[j];
                    assert forall|k: int| 0 <= k < t.len() implies {
                        &&& (#[trigger] ch.columns@[k]).component_id == t[k].component_id
                        &&& ch.columns@[k].element_size == t[k].element_size
                        &&& ch.columns@[k].data@.len() == ch.entities@.len() * t[k].element_size
                    } by {
                        assert(arch.chunks@[ci].columns@[k].data@.len() == (n - 1) * t[k].element_size);
                    }
                }
            }
        }
        assert forall|b: int| 0 <= b < self.archetypes@.len() implies #[trigger] self.arch_ok(b) by {
            assert(w0.arch_ok(b));
            if b == a {
                assert forall|k: int| 0 <= k < ids.len() implies {
                    &&& (#[trigger] ids[k] as int) < self.spec_schemas().len()
                    &&& self.archetypes@[b].template_columns@[k].element_size == self.spec_schemas()[ids[k] as int].size
                } by {
                    assert(w0.archetypes@[a].component_ids@[k] == ids[k]);
                }
            }
        }
        assert forall|i: int| 0 <= i < self.spec_schemas().len() implies #[trigger] self.schema_ok(i) by {
            assert(w0.schema_ok(i));
        }
        assert forall|i: int| 0 <= i < self.locations@.len() implies #[trigger] self.loc_ok(i) by {
            assert(w0.loc_ok(i));
            if i != id && self.locations@[i].spec_is_valid() {
                let li = w0.locations@[i];
                if r + 1 < n && i == m.id as int {
                    assert(self.archetypes@[a].chunks@[ci].entities@[r] == m);
                } else {
                    assert(self.locations@[i] == li);
                    if li.archetype_id as int == a && li.chunk_index as int == ci {
                        assert(ch0.entities@[li.row as int].id == i as u32);
                        assert(li.row as int != r);
                        assert(li.row as int != n - 1);
                        assert(self.archetypes@[a].chunks@[ci].entities@[li.row as int] == ch0.entities@[li.row as int]);
                    }
                }
            }
        }
        assert forall|x: int, c: int, q: int| #[trigger] self.stored_ok(x, c, q) by {
            assert(w0.stored_ok(x, c, q));
            if 0 <= x < self.archetypes@.len() && 0 <= c < self.archetypes@[x].chunks@.len() && 0 <= q
                < self.archetypes@[x].chunks@[c].entities@.len() {
                let e = self.archetypes@[x].chunks@[c].entities@[q];
                if x == a && c == ci {
                    if q == r {
                        assert(e == m);
                    } else {
                        assert(e == ch0.entities@[q]);
                        assert(e.id as int != id);
                        if r + 1 < n {
                            assert(e.id != m.id);
                        }
                    }
                } else {
                    if x == a {
                        assert(self.archetypes@[a].chunks@[c] == w0.archetypes@[a].chunks@[c]);
                    }
                    assert(e.id as int != id);
                    if r + 1 < n {
                        assert(e.id != m.id);
                    }
                }
            }
        }
        assert(self.registry_ok()) by {
            assert(w0.registry_ok());
            let mm = self.archetype_registry.spec_map();
            assert forall|b: int| 0 <= b < self.archetypes@.len() implies {
                &&& mm.dom().contains((#[trigger] self.archetypes@[b]).component_ids@)
                &&& mm[self.archetypes@[b].component_ids@] == b
            } by {
                assert(w0.archetypes@[b].component_ids@ == self.archetypes@[b].component_ids@);
            }
            assert forall|key: Seq<u32>| #[trigger] mm.dom().contains(key) implies {
                &&& (mm[key] as int) < self.archetypes@.len()
                &&& self.archetypes@[mm[key] as int].component_ids@ == key
            } by {
                assert(w0.archetypes@[mm[key] as int].component_ids@ == self.archetypes@[mm[key] as int].component_ids@);
            }
        }
        assert forall|x: int| x != id implies #[trigger] self.spec_components(x) == w0.spec_components(x) by {
            if w0.spec_placed(x) {
                assert(w0.loc_ok(x));
                let lx = w0.locations@[x];
                let xa = lx.archetype_id as int;
                let xc = lx.chunk_index as int;
                if r + 1 < n && x == m.id as int {
                    assert forall|c: u32| #[trigger] ids.contains(c) implies self.spec_cell(a, ci, c, r as nat) == w0.spec_cell(a, ci, c, (n - 1) as nat) by {
                        let k = ids.index_of(c);
                        assert(0 <= k < ids.len() && ids[k] == c);
                    }
                    assert(self.spec_components(x) =~= w0.spec_components(x));
                } else if xa == a && xc == ci {
                    assert(ch0.entities@[lx.row as int].id == x as u32);
                    assert(lx.row as int != r);
                    assert(lx.row as int != n - 1);
                    assert forall|c: u32| #[trigger] ids.contains(c) implies self.spec_cell(a, ci, c, lx.row as nat) == w0.spec_cell(a, ci, c, lx.row as nat) by {
                        let k = ids.index_of(c);
                        assert(0 <= k < ids.len() && ids[k] == c);
                    }
                    assert(self.spec_components(x) =~= w0.spec_components(x));
                } else if xa == a {
                    assert(self.archetypes@[a].chunks@[xc] == w0.archetypes@[a].chunks@[xc]);
                    assert(self.spec_components(x) =~= w0.spec_components(x));
                } else {
                    assert(self.spec_components(x) =~= w0.spec_components(x));
                }
            } else {
                assert(!self.spec_placed(x));
                assert(self.spec_components(x) =~= w0.spec_components(x));
            }
        }
    }

    /// `c`'s values fit its schema whenever its component id is registered.
    pub open spec fn spec_instance_typed(&self, c: ComponentInstance) -> bool {
        (c.component_id as int) < self.spec_schemas().len() ==> values_match(
            self.spec_schemas()[c.component_id as int].fields@,
            c.values@,
        )
    }

    /// The world differs from `other` at most in the data stored for slot
    /// `id`: same entities, registries and archetype layout.
    pub open spec fn spec_same_layout(&self, other: &World) -> bool {
        &&& self.entity_manager == other.entity_manager
        &&& self.resources == other.resources
        &&& self.events == other.events
        &&& self.locations@ == other.locations@
        &&& self.component_registry == other.component_registry
        &&& self.archetype_registry == other.archetype_registry
        &&& self.archetypes@.len() == other.archetypes@.len()
        &&& forall|a: int|
            0 <= a < self.archetypes@.len() ==> {
                &&& (#[trigger] other.archetypes@[a]).component_ids@ == self.archetypes@[a].component_ids@
                &&& other.archetypes@[a].chunks@.len() == self.archetypes@[a].chunks@.len()
                &&& forall|c: int|
                    0 <= c < self.archetypes@[a].chunks@.len() ==> (#[trigger] other.archetypes@[a].chunks@[c]).entities@
                        == self.archetypes@[a].chunks@[c].entities@
            }
    }

    /// Overwrite `entity`'s existing component `component.component_id` in
    /// place (no migration).
    pub fn set_component(&mut self, entity: Entity, component: ComponentInstance) -> (r: EcsResult<()>)
        requires
            old(self).wf(),
            old(self).spec_instance_typed(component),
        ensures
            final(self).wf(),
            !old(self).spec_is_alive(entity) ==> r == Err::<(), EcsError>(EcsError::EntityNotFound),
            old(self).spec_is_alive(entity) && !old(self).spec_placed(entity.id as int) ==> r == Err::<(), EcsError>(
                EcsError::ComponentNotFound(component.component_id),
            ),
            old(self).spec_is_alive(entity) && old(self).spec_placed(entity.id as int) && (component.component_id as int)
                >= old(self).spec_schemas().len() ==> r == Err::<(), EcsError>(
                EcsError::ComponentNotRegistered(component.component_id),
            ),
            old(self).spec_is_alive(entity) && old(self).spec_placed(entity.id as int) && (component.component_id as int)
                < old(self).spec_schemas().len() && !old(self).spec_components(entity.id as int).dom().contains(
                component.component_id,
            ) ==> r == Err::<(), EcsError>(EcsError::ComponentNotFound(component.component_id)),
            r is Ok <==> old(self).spec_is_alive(entity) && old(self).spec_components(entity.id as int).dom().contains(
                component.component_id,
            ),
            r is Err ==> *final(self) == *old(self),
            r is Ok ==> {
                &&& final(self).spec_components(entity.id as int) == old(self).spec_components(entity.id as int).insert(
                    component.component_id,
                    old(self).spec_instance_bytes(component),
                )
                &&& old(self).spec_others_unchanged(final(self), entity.id as int)
                &&& final(self).spec_same_layout(old(self))
            },
    {
        if !self.entity_manager.is_alive(entity) {
            return Err(EcsError::EntityNotFound);
        }
        let loc = self.locations[entity.id as usize];
        let cid = component.component_id;
        if !loc.is_valid() {
            return Err(EcsError::ComponentNotFound(cid));
        }
        let schema = match self.component_registry.get(cid) {
            Some(s) => s,
            None => {
                proof {
                    if self.spec_components(entity.id as int).dom().contains(cid) {
                        self.lemma_component_layout(entity.id as int, cid);
                    }
                }
                return Err(EcsError::ComponentNotRegistered(cid));
            },
        };
        proof {
            assert(self.loc_ok(entity.id as int));
            assert(self.arch_ok(loc.archetype_id as int));
        }
        if !self.archetypes[loc.archetype_id as usize].has_component(cid) {
            return Err(EcsError::ComponentNotFound(cid));
        }
        let bytes = schema.serialize(component.values.as_slice());
        let ghost w0 = *self;
        proof {
            assert(self.schema_ok(cid as int));
        }
        let col_idx = self.archetypes[loc.archetype_id as usize].column_index(cid);
        let archetype = &mut self.archetypes[loc.archetype_id as usize];
        proof {
            let ch = archetype.chunks@[loc.chunk_index as int];
            assert(chunk_fits(ch, archetype.template_columns@));
            let col = ch.columns@[col_idx as int];
            crate::archetype::lemma_row_in_column(col.data@.len(), col.element_size as nat, ch.entities@.len(), loc.row as nat);
        }
        archetype.chunks[loc.chunk_index as usize].columns[col_idx].write_row(loc.row as usize, bytes.as_slice());
        proof {
            self.lemma_after_write(w0, entity.id as int, col_idx as int, bytes@);
        }
        Ok(())
    }

    /// Overwrite column `k` of the entity stored at archetype `a`, chunk `c`,
    /// row `r` with `bytes` (one element).
    pub(crate) fn write_cell(&mut self, a: usize, c: usize, r: usize, k: usize, bytes: &[u8])
        requires
            old(self).wf(),
            a < old(self).archetypes@.len(),
            c < old(self).archetypes@[a as int].chunks@.len(),
            r < old(self).archetypes@[a as int].chunks@[c as int].entities@.len(),
            k < old(self).archetypes@[a as int].component_ids@.len(),
            bytes@.len() == old(self).archetypes@[a as int].template_columns@[k as int].element_size,
        ensures
            final(self).wf(),
            final(self).spec_same_layout(old(self)),
            ({
                let e = old(self).archetypes@[a as int].chunks@[c as int].entities@[r as int];
                &&& final(self).spec_components(e.id as int) == old(self).spec_components(e.id as int).insert(
                    old(self).archetypes@[a as int].component_ids@[k as int],
                    bytes@,
                )
                &&& old(self).spec_others_unchanged(final(self), e.id as int)
            }),
    {
        let ghost w0 = *self;
        let ghost e = self.archetypes@[a as int].chunks@[c as int].entities@[r as int];
        proof {
            self.lemma_stored_entity(a as int, c as int, r as int);
            assert(self.arch_ok(a as int));
            let ch = self.archetypes@[a as int].chunks@[c as int];
            assert(chunk_fits(ch, self.archetypes@[a as int].template_columns@));
            let col = ch.columns@[k as int];
            crate::archetype::lemma_row_in_column(col.data@.len(), col.element_size as nat, ch.entities@.len(), r as nat);
        }
        self.archetypes[a].chunks[c].columns[k].write_row(r, bytes);
        proof {
            self.lemma_after_write(w0, e.id as int, k as int, bytes@);
        }
    }

    /// Bookkeeping for `set_component`: row `loc.row` of column `k` of the
    /// entity's chunk was overwritten with `b`.
    proof fn lemma_after_write(&self, w0: World, id: int, k: int, b: Seq<u8>)
        requires
            w0.wf(),
            w0.spec_placed(id),
            ({
                let loc = w0.locations@[id];
                let a = loc.archetype_id as int;
                let ci = loc.chunk_index as int;
                let arch = self.archetypes@[a];
                let old_arch = w0.archetypes@[a];
                let ch0 = old_arch.chunks@[ci];
                &&& 0 <= k < old_arch.component_ids@.len()
                &&& b.len() == old_arch.template_columns@[k].element_size
                &&& self.archetypes@.len() == w0.archetypes@.len()
                &&& forall|x: int| 0 <= x < w0.archetypes@.len() && x != a ==> #[trigger] self.archetypes@[x] == w0.archetypes@[x]
                &&& arch.id == old_arch.id
                &&& arch.component_ids@ == old_arch.component_ids@
                &&& arch.column_lookup == old_arch.column_lookup
                &&& arch.mask@ == old_arch.mask@
                &&& arch.template_columns@ == old_arch.template_columns@
                &&& arch.chunks@.len() == old_arch.chunks@.len()
                &&& forall|j: int| 0 <= j < arch.chunks@.len() && j != ci ==> #[trigger] arch.chunks@[j] == old_arch.chunks@[j]
                &&& arch.chunks@[ci].entities@ == ch0.entities@
                &&& arch.chunks@[ci].columns@.len() == ch0.columns@.len()
                &&& forall|j: int| 0 <= j < ch0.columns@.len() && j != k ==> #[trigger] arch.chunks@[ci].columns@[j] == ch0.columns@[j]
                &&& arch.chunks@[ci].columns@[k].component_id == ch0.columns@[k].component_id
                &&& arch.chunks@[ci].columns@[k].element_size == ch0.columns@[k].element_size
                &&& arch.chunks@[ci].columns@[k].data@ == crate::archetype::spec_write_row(
                    ch0.columns@[k].data@,
                    ch0.columns@[k].element_size as nat,
                    loc.row as nat,
                    b,
                )
            }),
            self.locations == w0.locations,
            self.entity_manager == w0.entity_manager,
            self.component_registry == w0.component_registry,
            self.archetype_registry == w0.archetype_registry,
            self.resources == w0.resources,
            self.events == w0.events,
        ensures
            self.wf(),
            self.spec_components(id) == w0.spec_components(id).insert(
                w0.archetypes@[w0.locations@[id].archetype_id as int].component_ids@[k],
                b,
            ),
            w0.spec_others_unchanged(self, id),
            self.spec_same_layout(&w0),
    {
        let loc = w0.locations@[id];
        let a = loc.archetype_id as int;
        let ci = loc.chunk_index as int;
        let r = loc.row as int;
        let arch = self.archetypes@[a];
        let ch0 = w0.archetypes@[a].chunks@[ci];
        let t = arch.template_columns@;
        let ids = arch.component_ids@;
        let n = ch0.entities@.len();
        assert(w0.loc_ok(id));
        assert(w0.arch_ok(a));
        assert(chunk_fits(ch0, t));
        crate::archetype::lemma_write_row(ch0.columns@[k].data@, t[k].element_size as nat, n, r as nat, b);
        assert(arch.wf()) by {
            assert forall|j: int| 0 <= j < arch.chunks@.len() implies chunk_fits(#[trigger] arch.chunks@[j], t) by {
                if j != ci {
                    assert(arch.chunks@[j] == w0.archetypes@[a].chunks@[j]);
                } else {
                    let ch = arch.chunks@[j];
                    assert forall|q: int| 0 <= q < t.len() implies {
                        &&& (#[trigger] ch.columns@[q]).component_id == t[q].component_id
                        &&& ch.columns@[q].element_size == t[q].element_size
                        &&& ch.columns@[q].data@.len() == ch.entities@.len() * t[q].element_size
                    } by {
                        if q != k {
                            assert(ch.columns@[q] == ch0.columns@[q]);
                        }
                    }
                }
            }
        }
        assert forall|x: int| 0 <= x < self.archetypes@.len() implies #[trigger] self.arch_ok(x) by {
            assert(w0.arch_ok(x));
            if x == a {
                assert forall|q: int| 0 <= q < ids.len() implies {
                    &&& (#[trigger] ids[q] as int) < self.spec_schemas().len()
                    &&& self.archetypes@[x].template_columns@[q].element_size == self.spec_schemas()[ids[q] as int].size
                } by {
                    assert(w0.archetypes@[a].component_ids@[q] == ids[q]);
                }
            }
        }
        assert forall|i: int| 0 <= i < self.spec_schemas().len() implies #[trigger] self.schema_ok(i) by {
            assert(w0.schema_ok(i));
        }
        assert forall|i: int| 0 <= i < self.locations@.len() implies #[trigger] self.loc_ok(i) by {
            assert(w0.loc_ok(i));
            let li = self.locations@[i];
            if li.spec_is_valid() && li.archetype_id as int == a && li.chunk_index as int != ci {
                assert(arch.chunks@[li.chunk_index as int] == w0.archetypes@[a].chunks@[li.chunk_index as int]);
            }
        }
        assert forall|x: int, c: int, q: int| #[trigger] self.stored_ok(x, c, q) by {
            assert(w0.stored_ok(x, c, q));
            if x == a && 0 <= c < arch.chunks@.len() && c != ci {
                assert(arch.chunks@[c] == w0.archetypes@[a].chunks@[c]);
            }
        }
        assert(self.registry_ok()) by {
            assert(w0.registry_ok());
            let mm = self.archetype_registry.spec_map();
            assert forall|x: int| 0 <= x < self.archetypes@.len() implies {
                &&& mm.dom().contains((#[trigger] self.archetypes@[x]).component_ids@)
                &&& mm[self.archetypes@[x].component_ids@] == x
            } by {
                assert(w0.archetypes@[x].component_ids@ == self.archetypes@[x].component_ids@);
            }
            assert forall|key: Seq<u32>| #[trigger] mm.dom().contains(key) implies {
                &&& (mm[key] as int) < self.archetypes@.len()
                &&& self.archetypes@[mm[key] as int].component_ids@ == key
            } by {
                assert(w0.archetypes@[mm[key] as int].component_ids@ == self.archetypes@[mm[key] as int].component_ids@);
            }
        }
        assert(ids.no_duplicates());
        assert(self.spec_components(id) =~= w0.spec_components(id).insert(ids[k], b)) by {
            assert forall|c: u32| #[trigger] ids.contains(c) implies self.spec_cell(a, ci, c, r as nat) == (if c == ids[k] {
                b
            } else {
                w0.spec_cell(a, ci, c, r as nat)
            }) by {
                let q = ids.index_of(c);
                assert(0 <= q < ids.len() && ids[q] == c);
                if c == ids[k] {
                    assert(q == k);
                } else {
                    assert(q != k);
                }
            }
            assert(ids.contains(ids[k]));
        }
        assert forall|x: int| x != id implies #[trigger] self.spec_components(x) == w0.spec_components(x) by {
            if w0.spec_placed(x) {
                assert(w0.loc_ok(x));
                let lx = w0.locations@[x];
                if lx.archetype_id as int == a && lx.chunk_index as int == ci {
                    assert(w0.stored_ok(a, ci, r));
                    assert(lx.row as int != r);
                    assert forall|c: u32| #[trigger] ids.contains(c) implies self.spec_cell(a, ci, c, lx.row as nat) == w0.spec_cell(a, ci, c, lx.row as nat) by {
                        let q = ids.index_of(c);
                        assert(0 <= q < ids.len() && ids[q] == c);
                    }
                } else if lx.archetype_id as int == a {
                    assert(arch.chunks@[lx.chunk_index as int] == w0.archetypes@[a].chunks@[lx.chunk_index as int]);
                }
                assert(self.spec_components(x) =~= w0.spec_components(x));
            } else {
                assert(self.spec_components(x) =~= w0.spec_components(x));
            }
        }
    }

    /// Despawn `entity`: take it out of storage (swap-remove) and retire its
    /// handle. Fails with `EntityNotFound` when it is not alive.
    pub fn despawn(&mut self, entity: Entity) -> (r: EcsResult<()>)
        requires
            old(self).wf(),
        ensures
            final(self).wf(),
            !final(self).spec_is_alive(entity),
            !old(self).spec_is_alive(entity) ==> {
                &&& r == Err::<(), EcsError>(EcsError::EntityNotFound)
                &&& *final(self) == *old(self)
            },
            old(self).spec_is_alive(entity) ==> {
                &&& r is Ok
                &&& final(self).spec_generations() == old(self).spec_generations().update(
                    entity.id as int,
                    vstd::wrapping::u32_specs::wrapping_add(entity.generation, 1),
                )
                &&& final(self).entity_manager.spec_free() == old(self).entity_manager.spec_free().push(entity.id)
                &&& final(self).entity_manager.spec_alive_count() == old(self).entity_manager.spec_alive_count() - 1
                &&& final(self).spec_components(entity.id as int) == Map::<u32, Seq<u8>>::empty()
                &&& old(self).spec_others_unchanged(final(self), entity.id as int)
            },
            final(self).spec_schemas() == old(self).spec_schemas(),
            final(self).spec_storage_room() == old(self).spec_storage_room(),
            forall|s: Set<u32>| #[trigger] old(self).spec_has_archetype(s) ==> final(self).spec_has_archetype(s),
            old(self).spec_grown(final(self), 0, 0),
            forall|k: nat| old(self).spec_room_for(k) ==> #[trigger] final(self).spec_room_for(k),
    {
        if !self.entity_manager.is_alive(entity) {
            return Err(EcsError::EntityNotFound);
        }
        let ghost w0 = *self;
        let loc = self.locations[entity.id as usize];
        if loc.is_valid() {
            self.detach(entity.id);
        }
        let ghost w1 = *self;
        proof {
            assert(w1.spec_storage_room() == w0.spec_storage_room()) by {
                if w0.spec_storage_room() {
                    assert forall|a: int| 0 <= a < w1.archetypes@.len() implies (#[trigger] w1.archetypes@[a]).chunks@.len() + 1 < u32::MAX by {
                        assert(w0.archetypes@[a].chunks@.len() + 1 < u32::MAX);
                    }
                }
                if w1.spec_storage_room() {
                    assert forall|a: int| 0 <= a < w0.archetypes@.len() implies (#[trigger] w0.archetypes@[a]).chunks@.len() + 1 < u32::MAX by {
                        assert(w1.archetypes@[a].chunks@.len() + 1 < u32::MAX);
                    }
                }
            }
        }
        self.entity_manager.destroy(entity);
        proof {
            self.lemma_after_destroy(w1, entity.id as int);
            assert(self.spec_components(entity.id as int) =~= Map::<u32, Seq<u8>>::empty());
        }
        Ok(())
    }

    /// After retiring the unplaced slot `id` the world is still well formed and
    /// holds the same components.
    proof fn lemma_after_destroy(&self, w1: World, id: int)
        requires
            w1.wf(),
            0 <= id < w1.locations@.len(),
            !w1.spec_placed(id),
            self.entity_manager.wf(),
            self.spec_generations().len() == w1.spec_generations().len(),
            forall|i: int| 0 <= i < w1.spec_generations().len() && i != id ==> self.spec_generations()[i] == w1.spec_generations()[i],
            self.entity_manager.spec_free() == w1.entity_manager.spec_free() || self.entity_manager.spec_free() == w1.entity_manager.spec_free().push(id as u32),
            self.archetypes == w1.archetypes,
            self.locations == w1.locations,
            self.component_registry == w1.component_registry,
            self.archetype_registry == w1.archetype_registry,
            self.resources == w1.resources,
            self.events == w1.events,
        ensures
            self.wf(),
            forall|x: int| #[trigger] self.spec_components(x) == w1.spec_components(x),
    {
        assert forall|a: int| 0 <= a < self.archetypes@.len() implies #[trigger] self.arch_ok(a) by {
            assert(w1.arch_ok(a));
        }
        assert forall|i: int| 0 <= i < self.spec_schemas().len() implies #[trigger] self.schema_ok(i) by {
            assert(w1.schema_ok(i));
        }
        assert forall|i: int| 0 <= i < self.locations@.len() implies #[trigger] self.loc_ok(i) by {
            assert(w1.loc_ok(i));
            if i != id && self.locations@[i].spec_is_valid() {
                if self.entity_manager.spec_free().contains(i as u32) {
                    let k = choose|k: int| 0 <= k < self.entity_manager.spec_free().len() && self.entity_manager.spec_free()[k] == i as u32;
                    if k < w1.entity_manager.spec_free().len() {
                        assert(w1.entity_manager.spec_free()[k] == i as u32);
                    }
                }
            }
        }
        assert forall|a: int, c: int, r: int| #[trigger] self.stored_ok(a, c, r) by {
            assert(w1.stored_ok(a, c, r));
        }
        assert(self.registry_ok()) by {
            assert(w1.registry_ok());
        }
        assert forall|x: int| #[trigger] self.spec_components(x) == w1.spec_components(x) by {
            assert(self.spec_components(x) =~= w1.spec_components(x));
        }
    }

    /// Despawn `entity` if it is alive; do nothing otherwise.
    pub fn destroy(&mut self, entity: Entity)
        requires
            old(self).wf(),
        ensures
            final(self).wf(),
            !final(self).spec_is_alive(entity),
            !old(self).spec_is_alive(entity) ==> *final(self) == *old(self),
            old(self).spec_is_alive(entity) ==> {
                &&& final(self).spec_generations() == old(self).spec_generations().update(
                    entity.id as int,
                    vstd::wrapping::u32_specs::wrapping_add(entity.generation, 1),
                )
                &&& final(self).entity_manager.spec_free() == old(self).entity_manager.spec_free().push(entity.id)
                &&& final(self).entity_manager.spec_alive_count() == old(self).entity_manager.spec_alive_count() - 1
                &&& final(self).spec_components(entity.id as int) == Map::<u32, Seq<u8>>::empty()
                &&& old(self).spec_others_unchanged(final(self), entity.id as int)
            },
            final(self).spec_schemas() == old(self).spec_schemas(),
            final(self).spec_storage_room() == old(self).spec_storage_room(),
            forall|s: Set<u32>| #[trigger] old(self).spec_has_archetype(s) ==> final(self).spec_has_archetype(s),
            old(self).spec_grown(final(self), 0, 0),
            forall|k: nat| old(self).spec_room_for(k) ==> #[trigger] final(self).spec_room_for(k),
    {
        let _ = self.despawn(entity);
    }

    /// The components of placed slot `id` other than `skip`, as (id, bytes)
    /// pairs and as a list of ids, in column order.
    fn collect_components(&self, id: u32, skip: u32) -> (r: (Vec<(u32, Vec<u8>)>, Vec<u32>))
        requires
            self.wf(),
            self.spec_placed(id as int),
        ensures
            r.1@.no_duplicates(),
            forall|c: u32| #[trigger] r.1@.contains(c) <==> (self.spec_components(id as int).dom().contains(c) && c != skip),
            r.0@.len() == r.1@.len(),
            forall|k: int|
                0 <= k < r.1@.len() ==> {
                    &&& (#[trigger] r.0@[k]).0 == r.1@[k]
                    &&& r.0@[k].1@ == self.spec_components(id as int)[r.1@[k]]
                    &&& (r.1@[k] as int) < self.spec_schemas().len()
                    &&& r.0@[k].1@.len() == self.spec_schemas()[r.1@[k] as int].size
                },
    {
        let loc = self.locations[id as usize];
        proof {
            assert(self.loc_ok(id as int));
            assert(self.arch_ok(loc.archetype_id as int));
        }
        let ids = &self.archetypes[loc.archetype_id as usize].component_ids;
        let ghost all = ids@;
        let mut pairs: Vec<(u32, Vec<u8>)> = Vec::new();
        let mut kept: Vec<u32> = Vec::new();
        let mut k: usize = 0;
        while k < ids.len()
            invariant
                self.wf(),
                self.spec_placed(id as int),
                loc == self.locations@[id as int],
                all == ids@,
                all == self.archetypes@[loc.archetype_id as int].component_ids@,
                all.no_duplicates(),
                k <= all.len(),
                pairs@.len() == kept@.len(),
                kept@.no_duplicates(),
                forall|c: u32| #[trigger] kept@.contains(c) <==> (all.subrange(0, k as int).contains(c) && c != skip),
                forall|j: int|
                    0 <= j < kept@.len() ==> {
                        &&& (#[trigger] pairs@[j]).0 == kept@[j]
                        &&& pairs@[j].1@ == self.spec_components(id as int)[kept@[j]]
                        &&& self.spec_components(id as int).dom().contains(kept@[j])
                        &&& (kept@[j] as int) < self.spec_schemas().len()
                        &&& pairs@[j].1@.len() == self.spec_schemas()[kept@[j] as int].size
                    },
            decreases all.len() - k,
        {
            let c = ids[k];
            let ghost before = kept@;
            if c != skip {
                proof {
                    assert(self.loc_ok(id as int));
                }
                let b = self.get_component_bytes_at_location(loc, c).unwrap();
                proof {
                    assert(all.contains(c));
                    assert(self.spec_components(id as int).dom().contains(c));
                    self.lemma_component_layout(id as int, c);
                    assert(!before.contains(c)) by {
                        if before.contains(c) {
                            let j = choose|j: int| 0 <= j < k && all.subrange(0, k as int)[j] == c;
                            assert(all[j] == all[k as int]);
                        }
                    }
                }
                pairs.push((c, vstd::slice::slice_to_vec(b)));
                kept.push(c);
                proof {
                    assert forall|x: int, y: int| 0 <= x < kept@.len() && 0 <= y < kept@.len() && x != y implies kept@[x] != kept@[y] by {
                        if x < before.len() && y < before.len() {
                        } else if x < before.len() {
                            assert(before.contains(before[x]));
                        } else if y < before.len() {
                            assert(before.contains(before[y]));
                        }
                    }
                }
            }
            proof {
                let s0 = all.subrange(0, k as int);
                let s1 = all.subrange(0, k as int + 1);
                assert forall|x: u32| #[trigger] kept@.contains(x) <==> (s1.contains(x) && x != skip) by {
                    if kept@.contains(x) {
                        let j = choose|j: int| 0 <= j < kept@.len() && kept@[j] == x;
                        if j < before.len() {
                            assert(before.contains(x));
                            let q = choose|q: int| 0 <= q < s0.len() && s0[q] == x;
                            assert(s1[q] == x);
                        } else {
                            assert(s1[k as int] == x);
                        }
                    }
                    if s1.contains(x) && x != skip {
                        let q = choose|q: int| 0 <= q < s1.len() && s1[q] == x;
                        if q < k {
                            assert(s0[q] == x);
                            assert(before.contains(x));
                            let j = choose|j: int| 0 <= j < before.len() && before[j] == x;
                            assert(kept@[j] == x);
                        } else {
                            assert(kept@[kept@.len() - 1] == x);
                        }
                    }
                }
            }
            k = k + 1;
        }
        proof {
            assert(all.subrange(0, all.len() as int) =~= all);
        }
        (pairs, kept)
    }

    /// Store the unplaced, alive `entity` in the archetype of component set
    /// `ids` (creating it if needed), each component with its bytes from `pairs`.
    fn relocate(&mut self, entity: Entity, ids: Vec<u32>, pairs: &Vec<(u32, Vec<u8>)>)
        requires
            old(self).wf(),
            old(self).spec_storage_room(),
            (entity.id as int) < old(self).locations@.len(),
            old(self).spec_generations()[entity.id as int] == entity.generation,
            !old(self).entity_manager.spec_free().contains(entity.id),
            !old(self).spec_placed(entity.id as int),
            ids@.no_duplicates(),
            pairs_fit(pairs@, ids@, old(self).spec_schemas()),
        ensures
            final(self).wf(),
            final(self).spec_components(entity.id as int) == Map::new(
                |c: u32| ids@.contains(c),
                |c: u32| pair_bytes(pairs@, c),
            ),
            old(self).spec_others_unchanged(final(self), entity.id as int),
            final(self).entity_manager == old(self).entity_manager,
            final(self).component_registry == old(self).component_registry,
            old(self).spec_grown(final(self), 1, 1),
            final(self).archetypes@.len() == old(self).spec_archetypes_with(ids@.to_set()),
            old(self).spec_keeps_archetypes(final(self)),
            final(self).spec_has_archetype(ids@.to_set()),
    {
        let ghost w0 = *self;
        let ghost ids_seq = ids@;
        proof {
            assert forall|k: int| 0 <= k < ids@.len() implies (#[trigger] ids@[k] as int) < self.spec_schemas().len() by {
                assert(pairs@[k].0 == ids@[k]);
            }
            assert(pairs_distinct(pairs@)) by {
                assert forall|i: int, j: int| 0 <= i < pairs@.len() && 0 <= j < pairs@.len() && i != j implies pairs@[i].0 != pairs@[j].0 by {
                    assert(pairs@[i].0 == ids_seq[i] && pairs@[j].0 == ids_seq[j]);
                }
            }
        }
        let archetype_id = self.create_archetype(ids);
        proof {
            let a = archetype_id as int;
            assert(self.arch_ok(a));
            let t = self.archetypes@[a].template_columns@;
            let aids = self.archetypes@[a].component_ids@;
            assert forall|k: int| 0 <= k < t.len() implies has_pair(pairs@, (#[trigger] t[k]).component_id, t[k].element_size as nat) by {
                assert(aids.contains(aids[k]));
                assert(ids_seq.contains(aids[k]));
                let i = choose|i: int| 0 <= i < ids_seq.len() && ids_seq[i] == aids[k];
                assert(pairs@[i].0 == t[k].component_id);
            }
            if a < w0.archetypes@.len() {
                assert(w0.archetypes@[a] == self.archetypes@[a]);
            }
        }
        self.place_entity(entity, archetype_id, pairs);
        proof {
            let m = self.spec_components(entity.id as int);
            let want = Map::new(|c: u32| ids_seq.contains(c), |c: u32| pair_bytes(pairs@, c));
            assert(m.dom() =~= want.dom());
            assert(m =~= want);
            self.lemma_placed_has_archetype(entity.id as int);
            assert(ids_seq.to_set() =~= m.dom());
        }
    }

    /// Add component `component` to `entity`, moving it to the archetype of its
    /// new component set; if it already has that component, overwrite it in place.
    pub fn add_component(&mut self, entity: Entity, component: ComponentInstance) -> (r: EcsResult<()>)
        requires
            old(self).wf(),
            old(self).spec_is_alive(entity) ==> old(self).spec_instance_typed(component),
            old(self).spec_storage_room(),
        ensures
            final(self).wf(),
            !old(self).spec_is_alive(entity) ==> r == Err::<(), EcsError>(EcsError::EntityNotFound),
            old(self).spec_is_alive(entity) && (component.component_id as int) >= old(self).spec_schemas().len() ==> r
                == Err::<(), EcsError>(EcsError::ComponentNotRegistered(component.component_id)),
            r is Ok <==> old(self).spec_is_alive(entity) && (component.component_id as int) < old(self).spec_schemas().len(),
            r is Err ==> *final(self) == *old(self),
            r is Ok ==> {
                &&& final(self).spec_components(entity.id as int) == old(self).spec_components(entity.id as int).insert(
                    component.component_id,
                    old(self).spec_instance_bytes(component),
                )
                &&& old(self).spec_others_unchanged(final(self), entity.id as int)
                &&& final(self).entity_manager == old(self).entity_manager
                &&& final(self).component_registry == old(self).component_registry
            },
            r is Ok ==> final(self).archetypes@.len() == old(self).spec_archetypes_with(
                final(self).spec_components(entity.id as int).dom(),
            ),
            forall|s: Set<u32>| #[trigger] old(self).spec_has_archetype(s) ==> final(self).spec_has_archetype(s),
            r is Ok ==> final(self).spec_has_archetype(final(self).spec_components(entity.id as int).dom()),
            old(self).spec_grown(final(self), 1, 1),
            forall|k: nat| old(self).spec_room_for(k + 1) ==> #[trigger] final(self).spec_room_for(k),
    {
        if !self.entity_manager.is_alive(entity) {
            return Err(EcsError::EntityNotFound);
        }
        let loc = self.locations[entity.id as usize];
        let cid = component.component_id;
        if loc.is_valid() {
            proof {
                assert(self.loc_ok(entity.id as int));
                assert(self.arch_ok(loc.archetype_id as int));
            }
            if self.archetypes[loc.archetype_id as usize].has_component(cid) {
                proof {
                    assert(self.spec_components(entity.id as int).dom().contains(cid));
                    self.lemma_component_layout(entity.id as int, cid);
                }
                let ghost wp = *self;
                let r = self.set_component(entity, component);
                proof {
                    let a = loc.archetype_id as int;
                    let d = self.spec_components(entity.id as int).dom();
                    assert(ids_are(wp.archetypes@[a].component_ids@, d));
                }
                return r;
            }
        }
        let schema = match self.component_registry.get(cid) {
            Some(s) => s,
            None => return Err(EcsError::ComponentNotRegistered(cid)),
        };
        let bytes = schema.serialize(component.values.as_slice());
        let ghost w0 = *self;
        let ghost old_comps = self.spec_components(entity.id as int);
        proof {
            assert(self.schema_ok(cid as int));
            assert(!old_comps.dom().contains(cid));
        }
        let (mut pairs, mut ids) = if loc.is_valid() {
            self.collect_components(entity.id, cid)
        } else {
            (Vec::new(), Vec::new())
        };
        proof {
            if !loc.spec_is_valid() {
                assert(old_comps =~= Map::<u32, Seq<u8>>::empty());
            }
        }
        let ghost ids0 = ids@;
        let ghost pairs0 = pairs@;
        pairs.push((cid, bytes));
        ids.push(cid);
        proof {
            assert(ids@.no_duplicates()) by {
                assert(!ids0.contains(cid));
                assert forall|x: int, y: int| 0 <= x < ids@.len() && 0 <= y < ids@.len() && x != y implies ids@[x] != ids@[y] by {
                    if x < ids0.len() && y < ids0.len() {
                    } else if x < ids0.len() {
                        assert(ids0.contains(ids0[x]));
                    } else if y < ids0.len() {
                        assert(ids0.contains(ids0[y]));
                    }
                }
            }
            assert(pairs_fit(pairs@, ids@, self.spec_schemas())) by {
                assert forall|k: int| 0 <= k < ids@.len() implies {
                    &&& (#[trigger] pairs@[k]).0 == ids@[k]
                    &&& (ids@[k] as int) < self.spec_schemas().len()
                    &&& pairs@[k].1@.len() == self.spec_schemas()[ids@[k] as int].size
                } by {
                    if k < ids0.len() {
                        assert(pairs@[k] == pairs0[k]);
                    }
                }
            }
        }
        if loc.is_valid() {
            self.detach(entity.id);
        }
        let ghost w1 = *self;
        proof {
            assert(w1.spec_storage_room()) by {
                assert forall|a: int| 0 <= a < w1.archetypes@.len() implies (#[trigger] w1.archetypes@[a]).chunks@.len() + 1 < u32::MAX by {
                    assert(w0.archetypes@[a].chunks@.len() + 1 < u32::MAX);
                }
            }
        }
        self.relocate(entity, ids, &pairs);
        proof {
            let want = old_comps.insert(cid, bytes@);
            let got = self.spec_components(entity.id as int);
            assert(pairs_distinct(pairs@)) by {
                assert forall|i: int, j: int| 0 <= i < pairs@.len() && 0 <= j < pairs@.len() && i != j implies pairs@[i].0 != pairs@[j].0 by {
                    assert(pairs@[i].0 == ids@[i] && pairs@[j].0 == ids@[j]);
                }
            }
            assert forall|c: u32| #[trigger] got.dom().contains(c) == want.dom().contains(c) by {
                if c != cid && old_comps.dom().contains(c) {
                    assert(ids0.contains(c));
                    let k = choose|k: int| 0 <= k < ids0.len() && ids0[k] == c;
                    assert(ids@[k] == c);
                }
                if got.dom().contains(c) && c != cid {
                    let k = choose|k: int| 0 <= k < ids@.len() && ids@[k] == c;
                    assert(ids0[k] == c);
                    assert(ids0.contains(c));
                }
                assert(ids@[ids0.len() as int] == cid);
            }
            assert forall|c: u32| #[trigger] want.dom().contains(c) implies got[c] == want[c] by {
                if c == cid {
                    lemma_pair_bytes(pairs@, ids0.len() as int);
                } else {
                    assert(ids0.contains(c));
                    let k = choose|k: int| 0 <= k < ids0.len() && ids0[k] == c;
                    lemma_pair_bytes(pairs@, k);
                    assert(pairs@[k] == pairs0[k]);
                }
            }
            assert(got =~= want);
            assert forall|x: int| x != entity.id as int implies #[trigger] self.spec_components(x) == w0.spec_components(x) by {
                assert(self.spec_components(x) == w1.spec_components(x));
            }
            assert(ids@.to_set() =~= got.dom());
            w0.lemma_archetypes_with_frame(&w1, got.dom());
            assert forall|s: Set<u32>| #[trigger] w0.spec_has_archetype(s) implies self.spec_has_archetype(s) by {
                w0.lemma_archetypes_with_frame(&w1, s);
                w1.lemma_keeps_has_archetype(self, s);
            }
        }
        Ok(())
    }

    /// Remove component `component_id` from `entity`, moving it to the
    /// archetype of its remaining components (or leaving it alive with no
    /// storage when none remain). An alive entity must be placed in storage.
    pub fn remove_component(&mut self, entity: Entity, component_id: u32) -> (r: EcsResult<()>)
        requires
            old(self).wf(),
            old(self).spec_storage_room(),
        ensures
            final(self).wf(),
            !old(self).spec_is_alive(entity) ==> r == Err::<(), EcsError>(EcsError::EntityNotFound),
            old(self).spec_is_alive(entity) && !old(self).spec_components(entity.id as int).dom().contains(component_id)
                ==> r == Err::<(), EcsError>(EcsError::ComponentNotFound(component_id)),
            r is Ok <==> old(self).spec_is_alive(entity) && old(self).spec_components(entity.id as int).dom().contains(
                component_id,
            ),
            r is Err ==> *final(self) == *old(self),
            r is Ok ==> {
                &&& final(self).spec_components(entity.id as int) == old(self).spec_components(entity.id as int).remove(
                    component_id,
                )
                &&& old(self).spec_others_unchanged(final(self), entity.id as int)
                &&& final(self).entity_manager == old(self).entity_manager
                &&& final(self).component_registry == old(self).component_registry
            },
            r is Ok ==> final(self).archetypes@.len() == if final(self).spec_components(entity.id as int).dom() == Set::<u32>::empty() {
                old(self).archetypes@.len()
            } else {
                old(self).spec_archetypes_with(final(self).spec_components(entity.id as int).dom())
            },
            forall|s: Set<u32>| #[trigger] old(self).spec_has_archetype(s) ==> final(self).spec_has_archetype(s),
            r is Ok && final(self).spec_components(entity.id as int).dom() != Set::<u32>::empty() ==> final(self).spec_has_archetype(
                final(self).spec_components(entity.id as int).dom(),
            ),
            old(self).spec_grown(final(self), 1, 1),
            forall|k: nat| old(self).spec_room_for(k + 1) ==> #[trigger] final(self).spec_room_for(k),
    {
        if !self.entity_manager.is_alive(entity) {
            return Err(EcsError::EntityNotFound);
        }
        let loc = self.locations[entity.id as usize];
        if !loc.is_valid() {
            proof {
                assert(self.spec_components(entity.id as int) =~= Map::<u32, Seq<u8>>::empty());
            }
            return Err(EcsError::ComponentNotFound(component_id));
        }
        proof {
            assert(self.loc_ok(entity.id as int));
            assert(self.arch_ok(loc.archetype_id as int));
        }
        if !self.archetypes[loc.archetype_id as usize].has_component(component_id) {
            return Err(EcsError::ComponentNotFound(component_id));
        }
        let ghost w0 = *self;
        let ghost old_comps = self.spec_components(entity.id as int);
        let (pairs, ids) = self.collect_components(entity.id, component_id);
        self.detach(entity.id);
        let ghost w1 = *self;
        let ghost ids_seq = ids@;
        if ids.len() == 0 {
            proof {
                assert forall|c: u32| !(#[trigger] old_comps.remove(component_id).dom().contains(c)) by {
                    if old_comps.dom().contains(c) && c != component_id {
                        assert(ids_seq.contains(c));
                    }
                }
                assert(self.spec_components(entity.id as int) =~= old_comps.remove(component_id));
                assert(self.spec_components(entity.id as int).dom() =~= Set::<u32>::empty());
            }
            return Ok(());
        }
        proof {
            assert(w1.spec_storage_room()) by {
                assert forall|a: int| 0 <= a < w1.archetypes@.len() implies (#[trigger] w1.archetypes@[a]).chunks@.len() + 1 < u32::MAX by {
                    assert(w0.archetypes@[a].chunks@.len() + 1 < u32::MAX);
                }
            }
            assert(!self.entity_manager.spec_free().contains(entity.id));
            assert(self.spec_schemas() == w0.spec_schemas());
            assert(pairs_fit(pairs@, ids@, self.spec_schemas()));
        }
        self.relocate(entity, ids, &pairs);
        proof {
            let want = old_comps.remove(component_id);
            let got = self.spec_components(entity.id as int);
            assert(pairs_distinct(pairs@)) by {
                assert forall|i: int, j: int| 0 <= i < pairs@.len() && 0 <= j < pairs@.len() && i != j implies pairs@[i].0 != pairs@[j].0 by {
                    assert(pairs@[i].0 == ids_seq[i] && pairs@[j].0 == ids_seq[j]);
                }
            }
            assert forall|c: u32| #[trigger] got.dom().contains(c) == want.dom().contains(c) by {}
            assert forall|c: u32| #[trigger] want.dom().contains(c) implies got[c] == want[c] by {
                assert(ids_seq.contains(c));
                let k = choose|k: int| 0 <= k < ids_seq.len() && ids_seq[k] == c;
                lemma_pair_bytes(pairs@, k);
            }
            assert(got =~= want);
            assert forall|x: int| x != entity.id as int implies #[trigger] self.spec_components(x) == w0.spec_components(x) by {
                assert(self.spec_components(x) == w1.spec_components(x));
            }
            assert(ids@.to_set() =~= got.dom());
            assert(ids_seq.contains(ids_seq[0]));
            assert(got.dom().contains(ids_seq[0]));
            w0.lemma_archetypes_with_frame(&w1, got.dom());
            assert forall|s: Set<u32>| #[trigger] w0.spec_has_archetype(s) implies self.spec_has_archetype(s) by {
                w0.lemma_archetypes_with_frame(&w1, s);
                w1.lemma_keeps_has_archetype(self, s);
            }
        }
        Ok(())
    }

    /// Same as `add_component`.
    pub fn insert(&mut self, entity: Entity, component: ComponentInstance) -> (r: EcsResult<()>)
        requires
            old(self).wf(),
            old(self).spec_is_alive(entity) ==> old(self).spec_instance_typed(component),
            old(self).spec_storage_room(),
        ensures
            final(self).wf(),
            !old(self).spec_is_alive(entity) ==> r == Err::<(), EcsError>(EcsError::EntityNotFound),
            old(self).spec_is_alive(entity) && (component.component_id as int) >= old(self).spec_schemas().len() ==> r
                == Err::<(), EcsError>(EcsError::ComponentNotRegistered(component.component_id)),
            r is Ok <==> old(self).spec_is_alive(entity) && (component.component_id as int) < old(self).spec_schemas().len(),
            r is Err ==> *final(self) == *old(self),
            r is Ok ==> {
                &&& final(self).spec_components(entity.id as int) == old(self).spec_components(entity.id as int).insert(
                    component.component_id,
                    old(self).spec_instance_bytes(component),
                )
                &&& old(self).spec_others_unchanged(final(self), entity.id as int)
                &&& final(self).entity_manager == old(self).entity_manager
                &&& final(self).component_registry == old(self).component_registry
            },
            r is Ok ==> final(self).archetypes@.len() == old(self).spec_archetypes_with(
                final(self).spec_components(entity.id as int).dom(),
            ),
            forall|s: Set<u32>| #[trigger] old(self).spec_has_archetype(s) ==> final(self).spec_has_archetype(s),
            r is Ok ==> final(self).spec_has_archetype(final(self).spec_components(entity.id as int).dom()),
            old(self).spec_grown(final(self), 1, 1),
            forall|k: nat| old(self).spec_room_for(k + 1) ==> #[trigger] final(self).spec_room_for(k),
    {
        self.add_component(entity, component)
    }

    /// Same as `set_component`.
    pub fn replace(&mut self, entity: Entity, component: ComponentInstance) -> (r: EcsResult<()>)
        requires
            old(self).wf(),
            old(self).spec_instance_typed(component),
        ensures
            final(self).wf(),
            !old(self).spec_is_alive(entity) ==> r == Err::<(), EcsError>(EcsError::EntityNotFound),
            old(self).spec_is_alive(entity) && !old(self).spec_placed(entity.id as int) ==> r == Err::<(), EcsError>(
                EcsError::ComponentNotFound(component.component_id),
            ),
            old(self).spec_is_alive(entity) && old(self).spec_placed(entity.id as int) && (component.component_id as int)
                >= old(self).spec_schemas().len() ==> r == Err::<(), EcsError>(
                EcsError::ComponentNotRegistered(component.component_id),
            ),
            old(self).spec_is_alive(entity) && old(self).spec_placed(entity.id as int) && (component.component_id as int)
                < old(self).spec_schemas().len() && !old(self).spec_components(entity.id as int).dom().contains(
                component.component_id,
            ) ==> r == Err::<(), EcsError>(EcsError::ComponentNotFound(component.component_id)),
            r is Ok <==> old(self).spec_is_alive(entity) && old(self).spec_components(entity.id as int).dom().contains(
                component.component_id,
            ),
            r is Err ==> *final(self) == *old(self),
            r is Ok ==> {
                &&& final(self).spec_components(entity.id as int) == old(self).spec_components(entity.id as int).insert(
                    component.component_id,
                    old(self).spec_instance_bytes(component),
                )
                &&& old(self).spec_others_unchanged(final(self), entity.id as int)
                &&& final(self).spec_same_layout(old(self))
            },
    {
        self.set_component(entity, component)
    }

    /// Same as `remove_component`.
    pub fn remove(&mut self, entity: Entity, component_id: u32) -> (r: EcsResult<()>)
        requires
            old(self).wf(),
            old(self).spec_storage_room(),
        ensures
            final(self).wf(),
            !old(self).spec_is_alive(entity) ==> r == Err::<(), EcsError>(EcsError::EntityNotFound),
            old(self).spec_is_alive(entity) && !old(self).spec_components(entity.id as int).dom().contains(component_id)
                ==> r == Err::<(), EcsError>(EcsError::ComponentNotFound(component_id)),
            r is Ok <==> old(self).spec_is_alive(entity) && old(self).spec_components(entity.id as int).dom().contains(
                component_id,
            ),
            r is Err ==> *final(self) == *old(self),
            r is Ok ==> {
                &&& final(self).spec_components(entity.id as int) == old(self).spec_components(entity.id as int).remove(
                    component_id,
                )
                &&& old(self).spec_others_unchanged(final(self), entity.id as int)
                &&& final(self).entity_manager == old(self).entity_manager
                &&& final(self).component_registry == old(self).component_registry
            },
            r is Ok ==> final(self).archetypes@.len() == if final(self).spec_components(entity.id as int).dom() == Set::<u32>::empty() {
                old(self).archetypes@.len()
            } else {
                old(self).spec_archetypes_with(final(self).spec_components(entity.id as int).dom())
            },
            forall|s: Set<u32>| #[trigger] old(self).spec_has_archetype(s) ==> final(self).spec_has_archetype(s),
            r is Ok && final(self).spec_components(entity.id as int).dom() != Set::<u32>::empty() ==> final(self).spec_has_archetype(
                final(self).spec_components(entity.id as int).dom(),
            ),
            old(self).spec_grown(final(self), 1, 1),
            forall|k: nat| old(self).spec_room_for(k + 1) ==> #[trigger] final(self).spec_room_for(k),
    {
        self.remove_component(entity, component_id)
    }

    /// Whether `extra` more entities can be stored (see `spec_room_for`).
    pub fn has_room_for(&self, extra: usize) -> (r: bool)
        ensures
            r == self.spec_room_for(extra as nat),
    {
        let n = self.archetypes.len();
        if n >= 0xffff_fffe || extra >= 0xffff_fffe - n {
            return false;
        }
        let mut a: usize = 0;
        while a < n
            invariant
                n == self.archetypes@.len(),
                n + extra + 1 < u32::MAX,
                a <= n,
                forall|b: int| 0 <= b < a ==> (#[trigger] self.archetypes@[b]).chunks@.len() + extra + 1 < u32::MAX,
            decreases n - a,
        {
            let len = self.archetypes[a].chunks.len();
            if len >= 0xffff_fffe || extra >= 0xffff_fffe - len {
                return false;
            }
            a = a + 1;
        }
        true
    }

    /// Whether one more entity can be stored (see `spec_storage_room`).
    pub fn has_storage_room(&self) -> (r: bool)
        ensures
            r == self.spec_storage_room(),
    {
        self.has_room_for(0)
    }

    /// Changing only the resources and events (keeping them well formed) keeps
    /// the world well formed and every entity's components.
    proof fn lemma_extras_frame(&self, w0: World)
        requires
            w0.wf(),
            self.resources.wf(),
            self.events.wf(),
            self.entity_manager == w0.entity_manager,
            self.archetypes == w0.archetypes,
            self.locations == w0.locations,
            self.component_registry == w0.component_registry,
            self.archetype_registry == w0.archetype_registry,
        ensures
            self.wf(),
            forall|x: int| #[trigger] self.spec_components(x) == w0.spec_components(x),
    {
        assert forall|a: int| 0 <= a < self.archetypes@.len() implies #[trigger] self.arch_ok(a) by {
            assert(w0.arch_ok(a));
        }
        assert forall|i: int| 0 <= i < self.spec_schemas().len() implies #[trigger] self.schema_ok(i) by {
            assert(w0.schema_ok(i));
        }
        assert forall|i: int| 0 <= i < self.locations@.len() implies #[trigger] self.loc_ok(i) by {
            assert(w0.loc_ok(i));
        }
        assert forall|a: int, c: int, r: int| #[trigger] self.stored_ok(a, c, r) by {
            assert(w0.stored_ok(a, c, r));
        }
        assert(self.registry_ok()) by {
            assert(w0.registry_ok());
        }
        assert forall|x: int| #[trigger] self.spec_components(x) == w0.spec_components(x) by {
            assert(self.spec_components(x) =~= w0.spec_components(x));
        }
    }

    // ─────────────────────────────────────────────
    // Resources
    // ─────────────────────────────────────────────

    /// Register a (well-formed) resource schema; see `Resources::register`.
    pub fn register_resource(&mut self, schema: ComponentSchema) -> (id: u32)
        requires
            old(self).wf(),
            schema.wf(),
            old(self).resources.spec_schemas().len() < u32::MAX,
        ensures
            final(self).wf(),
            final(self).resources.spec_id_of(schema.name@) == Some(id),
            (id as int) < final(self).resources.spec_schemas().len(),
            forall|n: Seq<char>| n != schema.name@ ==> #[trigger] final(self).resources.spec_id_of(n) == old(self).resources.spec_id_of(n),
            match old(self).resources.spec_id_of(schema.name@) {
                Some(existing) => {
                    &&& id == existing
                    &&& final(self).resources.spec_schemas() == old(self).resources.spec_schemas()
                    &&& final(self).resources.spec_data() == old(self).resources.spec_data()
                },
                None => {
                    &&& id == old(self).resources.spec_schemas().len()
                    &&& final(self).resources.spec_schemas().drop_last() == old(self).resources.spec_schemas()
                    &&& final(self).resources.spec_schemas().last().name@ == schema.name@
                    &&& final(self).resources.spec_schemas().last().size == schema.size
                    &&& final(self).resources.spec_schemas().last().fields@ == schema.fields@
                    &&& final(self).resources.spec_data() == old(self).resources.spec_data().insert(
                        id,
                        crate::resource::spec_zeros(schema.size as nat),
                    )
                },
            },
            forall|x: int| #[trigger] final(self).spec_components(x) == old(self).spec_components(x),
            final(self).entity_manager == old(self).entity_manager,
            final(self).events == old(self).events,
    {
        let ghost w0 = *self;
        let id = self.resources.register(schema);
        proof {
            self.lemma_extras_frame(w0);
        }
        id
    }

    /// Id of the resource called `name`, if registered.
    pub fn resource_id(&self, name: &str) -> (r: Option<u32>)
        requires
            self.wf(),
        ensures
            r == self.resources.spec_id_of(name@),
    {
        self.resources.resource_id(name)
    }

    /// Whether resource `resource_id` is registered.
    pub fn has_resource(&self, resource_id: u32) -> (r: bool)
        ensures
            r == self.resources.spec_data().dom().contains(resource_id),
    {
        self.resources.has(resource_id)
    }

    /// Overwrite resource `resource_id` with `values`; see `Resources::set`.
    pub fn set_resource(&mut self, resource_id: u32, values: &[ComponentValue]) -> (r: EcsResult<()>)
        requires
            old(self).wf(),
            (resource_id as int) < old(self).resources.spec_schemas().len() ==> values_match(
                old(self).resources.spec_schemas()[resource_id as int].fields@,
                values@,
            ),
        ensures
            final(self).wf(),
            final(self).resources.spec_schemas() == old(self).resources.spec_schemas(),
            (resource_id as int) >= old(self).resources.spec_schemas().len() ==> {
                &&& r == Err::<(), EcsError>(EcsError::ResourceNotRegistered(resource_id))
                &&& final(self).resources.spec_data() == old(self).resources.spec_data()
            },
            (resource_id as int) < old(self).resources.spec_schemas().len() ==> {
                &&& r is Ok
                &&& final(self).resources.spec_data() == old(self).resources.spec_data().insert(
                    resource_id,
                    spec_serialize(values@, values@.len() as int),
                )
            },
            forall|x: int| #[trigger] final(self).spec_components(x) == old(self).spec_components(x),
            final(self).entity_manager == old(self).entity_manager,
            final(self).events == old(self).events,
    {
        let ghost w0 = *self;
        let r = self.resources.set(resource_id, values);
        proof {
            self.lemma_extras_frame(w0);
        }
        r
    }

    /// The field values of resource `resource_id`, if registered.
    pub fn get_resource(&self, resource_id: u32) -> (r: Option<Vec<ComponentValue>>)
        requires
            self.wf(),
        ensures
            (resource_id as int) >= self.resources.spec_schemas().len() ==> r is None,
            (resource_id as int) < self.resources.spec_schemas().len() ==> (r matches Some(v) && v@ == spec_deserialize(
                self.resources.spec_schemas()[resource_id as int].fields@,
                self.resources.spec_data()[resource_id],
            )),
    {
        self.resources.get(resource_id)
    }

    // ─────────────────────────────────────────────
    // Events
    // ─────────────────────────────────────────────

    /// Register a (well-formed) event schema; see `Events::register`.
    pub fn register_event(&mut self, schema: ComponentSchema) -> (id: u32)
        requires
            old(self).wf(),
            schema.wf(),
            old(self).events.spec_schemas().len() < u32::MAX,
        ensures
            final(self).wf(),
            final(self).events.spec_id_of(schema.name@) == Some(id),
            (id as int) < final(self).events.spec_schemas().len(),
            forall|n: Seq<char>| n != schema.name@ ==> #[trigger] final(self).events.spec_id_of(n) == old(self).events.spec_id_of(n),
            match old(self).events.spec_id_of(schema.name@) {
                Some(existing) => {
                    &&& id == existing
                    &&& final(self).events.spec_schemas() == old(self).events.spec_schemas()
                    &&& final(self).events.spec_queues() == old(self).events.spec_queues()
                },
                None => {
                    &&& id == old(self).events.spec_schemas().len()
                    &&& final(self).events.spec_schemas().drop_last() == old(self).events.spec_schemas()
                    &&& final(self).events.spec_schemas().last().name@ == schema.name@
                    &&& final(self).events.spec_schemas().last().size == schema.size
                    &&& final(self).events.spec_schemas().last().fields@ == schema.fields@
                    &&& final(self).events.spec_queues() == old(self).events.spec_queues().insert(
                        id,
                        Seq::<Seq<u8>>::empty(),
                    )
                },
            },
            forall|x: int| #[trigger] final(self).spec_components(x) == old(self).spec_components(x),
            final(self).entity_manager == old(self).entity_manager,
            final(self).resources == old(self).resources,
    {
        let ghost w0 = *self;
        let id = self.events.register(schema);
        proof {
            self.lemma_extras_frame(w0);
        }
        id
    }

    /// Id of the event called `name`, if registered.
    pub fn event_id(&self, name: &str) -> (r: Option<u32>)
        requires
            self.wf(),
        ensures
            r == self.events.spec_id_of(name@),
    {
        self.events.event_id(name)
    }

    /// Queue one event of type `event_id`; an unknown id is ignored.
    pub fn send_event(&mut self, event_id: u32, values: &[ComponentValue])
        requires
            old(self).wf(),
            (event_id as int) < old(self).events.spec_schemas().len() ==> values_match(
                old(self).events.spec_schemas()[event_id as int].fields@,
                values@,
            ),
        ensures
            final(self).wf(),
            final(self).events.spec_schemas() == old(self).events.spec_schemas(),
            (event_id as int) >= old(self).events.spec_schemas().len() ==> final(self).events.spec_queues() == old(
                self,
            ).events.spec_queues(),
            (event_id as int) < old(self).events.spec_schemas().len() ==> final(self).events.spec_queues() == old(
                self,
            ).events.spec_queues().insert(
                event_id,
                old(self).events.spec_queues()[event_id].push(spec_serialize(values@, values@.len() as int)),
            ),
            forall|x: int| #[trigger] final(self).spec_components(x) == old(self).spec_components(x),
            final(self).entity_manager == old(self).entity_manager,
            final(self).resources == old(self).resources,
    {
        let ghost w0 = *self;
        self.events.send(event_id, values);
        proof {
            self.lemma_extras_frame(w0);
        }
    }

    /// This frame's events of type `event_id`, decoded, without clearing them.
    pub fn read_events(&self, event_id: u32) -> (r: Vec<Vec<ComponentValue>>)
        requires
            self.wf(),
        ensures
            (event_id as int) >= self.events.spec_schemas().len() ==> r@.len() == 0,
            (event_id as int) < self.events.spec_schemas().len() ==> {
                &&& r@.len() == self.events.spec_queues()[event_id].len()
                &&& forall|i: int|
                    0 <= i < r@.len() ==> (#[trigger] r@[i])@ == spec_deserialize(
                        self.events.spec_schemas()[event_id as int].fields@,
                        self.events.spec_queues()[event_id][i],
                    )
            },
    {
        self.events.read(event_id)
    }

    /// Read and clear this frame's events of type `event_id`.
    pub fn drain_events(&mut self, event_id: u32) -> (r: Vec<Vec<ComponentValue>>)
        requires
            old(self).wf(),
        ensures
            final(self).wf(),
            final(self).events.spec_schemas() == old(self).events.spec_schemas(),
            (event_id as int) >= old(self).events.spec_schemas().len() ==> {
                &&& r@.len() == 0
                &&& final(self).events.spec_queues() == old(self).events.spec_queues()
            },
            (event_id as int) < old(self).events.spec_schemas().len() ==> {
                &&& r@.len() == old(self).events.spec_queues()[event_id].len()
                &&& forall|i: int|
                    0 <= i < r@.len() ==> (#[trigger] r@[i])@ == spec_deserialize(
                        old(self).events.spec_schemas()[event_id as int].fields@,
                        old(self).events.spec_queues()[event_id][i],
                    )
                &&& final(self).events.spec_queues() == old(self).events.spec_queues().insert(
                    event_id,
                    Seq::<Seq<u8>>::empty(),
                )
            },
            forall|x: int| #[trigger] final(self).spec_components(x) == old(self).spec_components(x),
            final(self).entity_manager == old(self).entity_manager,
            final(self).resources == old(self).resources,
    {
        let ghost w0 = *self;
        let r = self.events.drain(event_id);
        proof {
            self.lemma_extras_frame(w0);
        }
        r
    }

    /// The archetype whose component set is exactly `component_ids` (any order), if created.
    /// A list with a repeated id names no archetype.
    pub fn get_archetype_id(&self, component_ids: &[u32]) -> (r: Option<u32>)
        requires
            self.wf(),
        ensures
            match r {
                Some(a) => {
                    &&& component_ids@.no_duplicates()
                    &&& (a as int) < self.archetypes@.len()
                    &&& forall|c: u32| #[trigger] self.archetypes@[a as int].component_ids@.contains(c) <==> component_ids@.contains(c)
                },
                None => !component_ids@.no_duplicates() || forall|a: int|
                    0 <= a < self.archetypes@.len() ==> !same_elements(#[trigger] self.archetypes@[a].component_ids@, component_ids@),
            },
    {
        if !ids_distinct(component_ids) {
            return None;
        }
        let sorted = sort_ids(component_ids);
        let r = self.archetype_registry.get(sorted.as_slice());
        proof {
            assert(self.registry_ok());
            if r is None {
                assert forall|a: int| 0 <= a < self.archetypes@.len() implies !same_elements(#[trigger] self.archetypes@[a].component_ids@, component_ids@) by {
                    assert(self.arch_ok(a));
                    if same_elements(self.archetypes@[a].component_ids@, component_ids@) {
                        lemma_sorted_unique(self.archetypes@[a].component_ids@, sorted@);
                    }
                }
            }
        }
        r
    }

    // ─────────────────────────────────────────────
    // Entity lifecycle (no storage)
    // ─────────────────────────────────────────────

    /// Create an entity with no components.
    pub fn spawn_empty(&mut self) -> (e: Entity)
        requires
            old(self).wf(),
            old(self).entity_manager.spec_can_create(),
        ensures
            final(self).wf(),
            e == old(self).entity_manager.spec_next_entity(),
            old(self).entity_manager.spec_after_create(&final(self).entity_manager),
            final(self).entity_manager.spec_alive_count() == old(self).entity_manager.spec_alive_count() + 1,
            final(self).spec_is_alive(e),
            !final(self).entity_manager.spec_free().contains(e.id),
            !final(self).spec_placed(e.id as int),
            final(self).spec_components(e.id as int) == Map::<u32, Seq<u8>>::empty(),
            forall|x: int| #[trigger] final(self).spec_components(x) == old(self).spec_components(x),
            final(self).archetypes@ == old(self).archetypes@,
            final(self).spec_schemas() == old(self).spec_schemas(),
            final(self).component_registry == old(self).component_registry,
            final(self).archetype_registry == old(self).archetype_registry,
            final(self).locations@.len() >= old(self).locations@.len(),
            forall|x: int| 0 <= x < old(self).locations@.len() ==> #[trigger] final(self).locations@[x] == old(self).locations@[x],
    {
        let ghost w0 = *self;
        let entity = self.entity_manager.create();
        let index = entity.id as usize;
        if self.locations.len() <= index {
            self.locations.push(EntityLocation::invalid());
        }
        proof {
            assert(!w0.spec_placed(entity.id as int)) by {
                if w0.spec_placed(entity.id as int) {
                    assert(w0.loc_ok(entity.id as int));
                    if w0.entity_manager.spec_free().len() > 0 {
                        assert(w0.entity_manager.spec_free().contains(entity.id));
                    }
                }
            }
            self.lemma_frame_after_create(w0, entity);
        }
        entity
    }


    /// Create an entity holding `components` (distinct, registered, well-typed).
    pub fn spawn(&mut self, components: Vec<ComponentInstance>) -> (e: Entity)
        requires
            old(self).wf(),
            old(self).spec_has_room(),
            instances_distinct(components@),
            forall|i: int| 0 <= i < components@.len() ==> old(self).spec_instance_ok(#[trigger] components@[i]),
        ensures
            final(self).wf(),
            e == old(self).entity_manager.spec_next_entity(),
            old(self).entity_manager.spec_after_create(&final(self).entity_manager),
            final(self).entity_manager.spec_alive_count() == old(self).entity_manager.spec_alive_count() + 1,
            final(self).spec_is_alive(e),
            final(self).spec_components(e.id as int) == spec_instances(components@),
            old(self).spec_others_unchanged(final(self), e.id as int),
            final(self).spec_schemas() == old(self).spec_schemas(),
            final(self).archetypes@.len() == old(self).spec_archetypes_with(spec_instances(components@).dom()),
            forall|s: Set<u32>| #[trigger] old(self).spec_has_archetype(s) ==> final(self).spec_has_archetype(s),
            final(self).spec_has_archetype(spec_instances(components@).dom()),
            old(self).spec_grown(final(self), 1, 1),
            forall|k: nat| old(self).spec_room_for(k + 1) ==> #[trigger] final(self).spec_room_for(k),
    {
        let ghost w0 = *self;
        let entity = self.spawn_empty();
        let ghost w1 = *self;
        let mut component_ids: Vec<u32> = Vec::new();
        let mut i: usize = 0;
        while i < components.len()
            invariant
                i <= components@.len(),
                component_ids@.len() == i,
                forall|k: int| 0 <= k < i ==> #[trigger] component_ids@[k] == components@[k].component_id,
            decreases components@.len() - i,
        {
            component_ids.push(components[i].component_id);
            i = i + 1;
        }
        proof {
            assert(component_ids@.no_duplicates()) by {
                assert forall|a: int, b: int| 0 <= a < component_ids@.len() && 0 <= b < component_ids@.len() && a != b
                    implies component_ids@[a] != component_ids@[b] by {}
            }
            assert forall|k: int| 0 <= k < component_ids@.len() implies (#[trigger] component_ids@[k] as int) < self.spec_schemas().len() by {
                assert(w0.spec_instance_ok(components@[k]));
            }
            assert forall|a: int| 0 <= a < self.archetypes@.len() implies (#[trigger] self.archetypes@[a]).chunks@.len() + 1 < u32::MAX by {
                assert(w0.archetypes@[a] == self.archetypes@[a]);
            }
        }
        let ghost ids_seq = component_ids@;
        let archetype_id = self.create_archetype(component_ids);
        let ghost w2 = *self;
        let mut serialized: Vec<(u32, Vec<u8>)> = Vec::new();
        let mut j: usize = 0;
        while j < components.len()
            invariant
                j <= components@.len(),
                serialized@.len() == j,
                self.component_registry == w0.component_registry,
                forall|i: int| 0 <= i < components@.len() ==> w0.spec_instance_ok(#[trigger] components@[i]),
                forall|k: int| 0 <= k < self.spec_schemas().len() ==> #[trigger] self.schema_ok(k),
                forall|k: int|
                    0 <= k < j ==> {
                        &&& (#[trigger] serialized@[k]).0 == components@[k].component_id
                        &&& serialized@[k].1@ == spec_serialize(components@[k].values@, components@[k].values@.len() as int)
                        &&& serialized@[k].1@.len() == self.spec_schemas()[components@[k].component_id as int].size
                    },
            decreases components@.len() - j,
        {
            let c = &components[j];
            proof {
                assert(w0.spec_instance_ok(components@[j as int]));
                assert(self.schema_ok(c.component_id as int));
            }
            let schema = self.component_registry.get(c.component_id).unwrap();
            let bytes = schema.serialize(c.values.as_slice());
            serialized.push((c.component_id, bytes));
            j = j + 1;
        }
        proof {
            let a = archetype_id as int;
            assert(self.arch_ok(a));
            let t = self.archetypes@[a].template_columns@;
            let ids = self.archetypes@[a].component_ids@;
            assert(pairs_distinct(serialized@));
            assert forall|k: int| 0 <= k < t.len() implies has_pair(serialized@, (#[trigger] t[k]).component_id, t[k].element_size as nat) by {
                assert(ids.contains(ids[k]));
                assert(ids_seq.contains(ids[k]));
                let i = choose|i: int| 0 <= i < ids_seq.len() && ids_seq[i] == ids[k];
                assert(serialized@[i].0 == t[k].component_id);
            }
            if self.archetypes@.len() == w1.archetypes@.len() {
                assert(w1.archetypes@[a] == self.archetypes@[a]);
            }
        }
        self.place_entity(entity, archetype_id, &serialized);
        proof {
            let a = archetype_id as int;
            let ids = w1.archetypes@.len() == self.archetypes@.len();
            assert(self.spec_components(entity.id as int) =~= spec_instances(components@)) by {
                assert forall|c: u32| #[trigger] spec_instances(components@).dom().contains(c) == self.spec_components(entity.id as int).dom().contains(c) by {
                    if spec_instances(components@).dom().contains(c) {
                        let i = choose|i: int| 0 <= i < components@.len() && components@[i].component_id == c;
                        assert(ids_seq[i] == c);
                        assert(ids_seq.contains(c));
                    }
                    if self.spec_components(entity.id as int).dom().contains(c) {
                        let i = choose|i: int| 0 <= i < ids_seq.len() && ids_seq[i] == c;
                        assert(components@[i].component_id == c);
                    }
                }
                assert forall|c: u32| #[trigger] spec_instances(components@).dom().contains(c) implies
                    self.spec_components(entity.id as int)[c] == spec_instances(components@)[c] by {
                    let i = choose|i: int| 0 <= i < components@.len() && components@[i].component_id == c;
                    let p = choose|p: int| 0 <= p < serialized@.len() && serialized@[p].0 == c;
                    assert(i == p);
                }
            }
            assert forall|x: int| x != entity.id as int implies #[trigger] self.spec_components(x) == w0.spec_components(x) by {
                assert(self.spec_components(x) == w1.spec_components(x));
            }
            assert(ids_seq.to_set() =~= spec_instances(components@).dom()) by {
                assert forall|c: u32| #[trigger] spec_instances(components@).dom().contains(c) implies ids_seq.contains(c) by {
                    let i = choose|i: int| 0 <= i < components@.len() && components@[i].component_id == c;
                    assert(ids_seq[i] == c);
                }
                assert forall|c: u32| ids_seq.contains(c) implies #[trigger] spec_instances(components@).dom().contains(c) by {
                    let i = choose|i: int| 0 <= i < ids_seq.len() && ids_seq[i] == c;
                    assert(components@[i].component_id == c);
                }
            }
            w0.lemma_archetypes_with_frame(&w1, ids_seq.to_set());
            assert(w2.spec_keeps_archetypes(self));
            assert forall|s: Set<u32>| #[trigger] w0.spec_has_archetype(s) implies self.spec_has_archetype(s) by {
                w0.lemma_archetypes_with_frame(&w1, s);
                w2.lemma_keeps_has_archetype(self, s);
            }
            self.lemma_placed_has_archetype(entity.id as int);
        }
        entity
    }

    /// Same as `spawn`.
    pub fn spawn_with(&mut self, components: Vec<ComponentInstance>) -> (e: Entity)
        requires
            old(self).wf(),
            old(self).spec_has_room(),
            instances_distinct(components@),
            forall|i: int| 0 <= i < components@.len() ==> old(self).spec_instance_ok(#[trigger] components@[i]),
        ensures
            final(self).wf(),
            e == old(self).entity_manager.spec_next_entity(),
            old(self).entity_manager.spec_after_create(&final(self).entity_manager),
            final(self).entity_manager.spec_alive_count() == old(self).entity_manager.spec_alive_count() + 1,
            final(self).spec_is_alive(e),
            final(self).spec_components(e.id as int) == spec_instances(components@),
            old(self).spec_others_unchanged(final(self), e.id as int),
            final(self).spec_schemas() == old(self).spec_schemas(),
            final(self).archetypes@.len() == old(self).spec_archetypes_with(spec_instances(components@).dom()),
            forall|s: Set<u32>| #[trigger] old(self).spec_has_archetype(s) ==> final(self).spec_has_archetype(s),
            final(self).spec_has_archetype(spec_instances(components@).dom()),
            old(self).spec_grown(final(self), 1, 1),
            forall|k: nat| old(self).spec_room_for(k + 1) ==> #[trigger] final(self).spec_room_for(k),
    {
        self.spawn(components)
    }

    /// `count` more handles can be handed out without overflowing an id.
    pub open spec fn spec_can_create_many(&self, count: nat) -> bool {
        count <= self.entity_manager.spec_free().len() + (u32::MAX - self.spec_generations().len())
    }

    /// Spawn `count` entities holding the same `components` (distinct,
    /// registered, well-typed) into one archetype.
    pub fn spawn_batch(&mut self, components: Vec<ComponentInstance>, count: usize) -> (r: Vec<Entity>)
        requires
            old(self).wf(),
            old(self).spec_room_for(count as nat),
            old(self).spec_can_create_many(count as nat),
            instances_distinct(components@),
            forall|i: int| 0 <= i < components@.len() ==> old(self).spec_instance_ok(#[trigger] components@[i]),
        ensures
            final(self).wf(),
            r@.len() == count,
            final(self).entity_manager.spec_alive_count() == old(self).entity_manager.spec_alive_count() + count,
            forall|i: int|
                0 <= i < r@.len() ==> {
                    &&& final(self).spec_is_alive(#[trigger] r@[i])
                    &&& final(self).spec_components(r@[i].id as int) == spec_instances(components@)
                    &&& (old(self).entity_manager.spec_free().contains(r@[i].id) || r@[i].id >= old(self).spec_generations().len())
                },
            forall|i: int, j: int| 0 <= i < r@.len() && 0 <= j < r@.len() && i != j ==> r@[i].id != r@[j].id,
            forall|x: int|
                (forall|i: int| 0 <= i < r@.len() ==> x != (#[trigger] r@[i]).id as int) ==> #[trigger] final(self).spec_components(x)
                    == old(self).spec_components(x),
            forall|e: Entity|
                #[trigger] old(self).spec_is_alive(e) && !old(self).entity_manager.spec_free().contains(e.id)
                    ==> final(self).spec_is_alive(e),
            final(self).spec_schemas() == old(self).spec_schemas(),
            final(self).archetypes@.len() == old(self).spec_archetypes_with(spec_instances(components@).dom()),
            forall|s: Set<u32>| #[trigger] old(self).spec_has_archetype(s) ==> final(self).spec_has_archetype(s),
            final(self).spec_has_archetype(spec_instances(components@).dom()),
            old(self).spec_grown(final(self), 1, count as nat),
            forall|k: nat| old(self).spec_room_for((k + count + 1) as nat) ==> #[trigger] final(self).spec_room_for(k),
    {
        let ghost w0 = *self;
        let mut component_ids: Vec<u32> = Vec::new();
        let mut i: usize = 0;
        while i < components.len()
            invariant
                i <= components@.len(),
                component_ids@.len() == i,
                forall|k: int| 0 <= k < i ==> #[trigger] component_ids@[k] == components@[k].component_id,
            decreases components@.len() - i,
        {
            component_ids.push(components[i].component_id);
            i = i + 1;
        }
        proof {
            assert(component_ids@.no_duplicates()) by {
                assert forall|a: int, b: int| 0 <= a < component_ids@.len() && 0 <= b < component_ids@.len() && a != b
                    implies component_ids@[a] != component_ids@[b] by {}
            }
            assert forall|k: int| 0 <= k < component_ids@.len() implies (#[trigger] component_ids@[k] as int) < self.spec_schemas().len() by {
                assert(w0.spec_instance_ok(components@[k]));
            }
        }
        let ghost ids_seq = component_ids@;
        let archetype_id = self.create_archetype(component_ids);
        let mut serialized: Vec<(u32, Vec<u8>)> = Vec::new();
        let mut j: usize = 0;
        while j < components.len()
            invariant
                j <= components@.len(),
                serialized@.len() == j,
                self.component_registry == w0.component_registry,
                forall|i: int| 0 <= i < components@.len() ==> w0.spec_instance_ok(#[trigger] components@[i]),
                forall|k: int| 0 <= k < self.spec_schemas().len() ==> #[trigger] self.schema_ok(k),
                forall|k: int|
                    0 <= k < j ==> {
                        &&& (#[trigger] serialized@[k]).0 == components@[k].component_id
                        &&& serialized@[k].1@ == spec_serialize(components@[k].values@, components@[k].values@.len() as int)
                        &&& serialized@[k].1@.len() == self.spec_schemas()[components@[k].component_id as int].size
                    },
            decreases components@.len() - j,
        {
            let c = &components[j];
            proof {
                assert(w0.spec_instance_ok(components@[j as int]));
                assert(self.schema_ok(c.component_id as int));
            }
            let schema = self.component_registry.get(c.component_id).unwrap();
            let bytes = schema.serialize(c.values.as_slice());
            serialized.push((c.component_id, bytes));
            j = j + 1;
        }
        let ghost inst = spec_instances(components@);
        let ghost w1 = *self;
        proof {
            let a = archetype_id as int;
            assert(self.arch_ok(a));
            let t = self.archetypes@[a].template_columns@;
            let ids = self.archetypes@[a].component_ids@;
            assert(pairs_distinct(serialized@));
            assert forall|k: int| 0 <= k < t.len() implies has_pair(serialized@, (#[trigger] t[k]).component_id, t[k].element_size as nat) by {
                assert(ids.contains(ids[k]));
                assert(ids_seq.contains(ids[k]));
                let i = choose|i: int| 0 <= i < ids_seq.len() && ids_seq[i] == ids[k];
                assert(serialized@[i].0 == t[k].component_id);
            }
            // the stored bytes of the archetype's components are the instances' bytes
            assert(Map::new(|c: u32| ids.contains(c), |c: u32| pair_bytes(serialized@, c)) =~= inst) by {
                assert forall|c: u32| #[trigger] inst.dom().contains(c) == ids.contains(c) by {
                    if inst.dom().contains(c) {
                        let i = choose|i: int| 0 <= i < components@.len() && components@[i].component_id == c;
                        assert(ids_seq[i] == c);
                        assert(ids_seq.contains(c));
                    }
                    if ids.contains(c) {
                        assert(ids_seq.contains(c));
                        let i = choose|i: int| 0 <= i < ids_seq.len() && ids_seq[i] == c;
                        assert(components@[i].component_id == c);
                    }
                }
                assert forall|c: u32| #[trigger] inst.dom().contains(c) implies pair_bytes(serialized@, c) == inst[c] by {
                    let i = choose|i: int| 0 <= i < components@.len() && components@[i].component_id == c;
                    let p = choose|p: int| 0 <= p < serialized@.len() && serialized@[p].0 == c;
                    assert(i == p);
                }
            }
            assert forall|b: int| 0 <= b < self.archetypes@.len() implies (#[trigger] self.archetypes@[b]).chunks@.len() + count + 1 < u32::MAX by {
                if b < w0.archetypes@.len() {
                    assert(w0.archetypes@[b] == self.archetypes@[b]);
                }
            }
        }
        let mut out: Vec<Entity> = Vec::new();
        let mut n: usize = 0;
        while n < count
            invariant
                self.wf(),
                n <= count,
                out@.len() == n,
                (archetype_id as int) < self.archetypes@.len(),
                self.archetypes@.len() == w1.archetypes@.len(),
                w1.spec_keeps_archetypes(self),
                self.archetypes@[archetype_id as int].component_ids@ == w1.archetypes@[archetype_id as int].component_ids@,
                self.archetypes@[archetype_id as int].template_columns@ == w1.archetypes@[archetype_id as int].template_columns@,
                pairs_distinct(serialized@),
                pairs_cover(serialized@, self.archetypes@[archetype_id as int].template_columns@),
                Map::new(|c: u32| self.archetypes@[archetype_id as int].component_ids@.contains(c), |c: u32| pair_bytes(serialized@, c)) == inst,
                forall|b: int| 0 <= b < self.archetypes@.len() ==> (#[trigger] self.archetypes@[b]).chunks@.len() + (count - n) + 1 < u32::MAX,
                count - n <= self.entity_manager.spec_free().len() + (u32::MAX - self.spec_generations().len()),
                self.entity_manager.spec_alive_count() == w0.entity_manager.spec_alive_count() + n,
                w1.spec_grown(self, 0, n as nat),
                self.spec_schemas() == w0.spec_schemas(),
                self.spec_generations().len() >= w0.spec_generations().len(),
                forall|x: u32| #[trigger] self.entity_manager.spec_free().contains(x) ==> w0.entity_manager.spec_free().contains(x),
                forall|e: Entity| #[trigger] w0.spec_is_alive(e) && !w0.entity_manager.spec_free().contains(e.id) ==> self.spec_is_alive(e),
                forall|i: int|
                    0 <= i < n ==> {
                        &&& self.spec_is_alive(#[trigger] out@[i])
                        &&& self.spec_placed(out@[i].id as int)
                        &&& self.spec_components(out@[i].id as int) == inst
                        &&& (w0.entity_manager.spec_free().contains(out@[i].id) || out@[i].id >= w0.spec_generations().len())
                    },
                forall|i: int, j: int| 0 <= i < n && 0 <= j < n && i != j ==> out@[i].id != out@[j].id,
                forall|x: int|
                    (forall|i: int| 0 <= i < n ==> x != (#[trigger] out@[i]).id as int) ==> #[trigger] self.spec_components(x)
                        == w0.spec_components(x),
            decreases count - n,
        {
            let ghost wa = *self;
            let entity = self.spawn_empty();
            let ghost wb = *self;
            proof {
                // the new handle is not one handed out earlier in this batch
                assert forall|i: int| 0 <= i < n implies (#[trigger] out@[i]).id != entity.id by {
                    assert(wa.spec_placed(out@[i].id as int));
                    wa.lemma_placed_not_free(out@[i].id as int);
                    if wa.entity_manager.spec_free().len() > 0 {
                        assert(wa.entity_manager.spec_free().contains(entity.id));
                    }
                }
                assert(w0.entity_manager.spec_free().contains(entity.id) || entity.id >= w0.spec_generations().len()) by {
                    if wa.entity_manager.spec_free().len() > 0 {
                        assert(wa.entity_manager.spec_free().contains(entity.id));
                    }
                }
                assert forall|x: u32| #[trigger] self.entity_manager.spec_free().contains(x) implies w0.entity_manager.spec_free().contains(x) by {
                    if wa.entity_manager.spec_free().len() > 0 {
                        let k = choose|k: int| 0 <= k < self.entity_manager.spec_free().len() && self.entity_manager.spec_free()[k] == x;
                        assert(wa.entity_manager.spec_free()[k] == x);
                    }
                    assert(wa.entity_manager.spec_free().contains(x));
                }
                assert forall|b: int| 0 <= b < self.archetypes@.len() implies (#[trigger] self.archetypes@[b]).chunks@.len() + 1 < u32::MAX by {
                    assert(wa.archetypes@[b].chunks@.len() + (count - n) + 1 < u32::MAX);
                }
                assert forall|e: Entity| #[trigger] wa.spec_is_alive(e) implies self.spec_is_alive(e) by {
                    if wa.entity_manager.spec_free().len() == 0 {
                        assert(self.spec_generations() == wa.spec_generations().push(0));
                    }
                }
            }
            self.place_entity(entity, archetype_id, &serialized);
            proof {
                assert(w1.spec_keeps_archetypes(self)) by {
                    assert forall|a: int| 0 <= a < w1.archetypes@.len() implies (#[trigger] self.archetypes@[a]).component_ids@
                        == w1.archetypes@[a].component_ids@ by {
                        assert(wa.archetypes@[a].component_ids@ == w1.archetypes@[a].component_ids@);
                        assert(wb.archetypes@[a] == wa.archetypes@[a]);
                    }
                }
                assert(wa.spec_grown(&wb, 0, 0));
                w1.lemma_grown_trans(&wa, &wb, 0, n as nat, 0, 0);
                w1.lemma_grown_trans(&wb, self, 0, n as nat, 0, 1);
            }
            let ghost out0 = out@;
            out.push(entity);
            proof {
                assert forall|b: int| 0 <= b < self.archetypes@.len() implies (#[trigger] self.archetypes@[b]).chunks@.len() + (count - (n + 1)) + 1 < u32::MAX by {
                    assert(wa.archetypes@[b].chunks@.len() + (count - n) + 1 < u32::MAX);
                    if b != archetype_id as int {
                        assert(self.archetypes@[b] == wa.archetypes@[b]);
                    }
                }
                assert forall|i: int| 0 <= i < n + 1 implies {
                    &&& self.spec_is_alive(#[trigger] out@[i])
                    &&& self.spec_placed(out@[i].id as int)
                    &&& self.spec_components(out@[i].id as int) == inst
                    &&& (w0.entity_manager.spec_free().contains(out@[i].id) || out@[i].id >= w0.spec_generations().len())
                } by {
                    if i < n {
                        assert(out@[i].id != entity.id);
                        assert(wa.spec_is_alive(out@[i]));
                        assert(self.spec_components(out@[i].id as int) == wb.spec_components(out@[i].id as int));
                        assert(wb.spec_components(out@[i].id as int) == wa.spec_components(out@[i].id as int));
                        assert(wa.spec_placed(out@[i].id as int));
                        assert(wb.locations@[out@[i].id as int] == wa.locations@[out@[i].id as int]);
                    }
                }
                assert forall|x: int|
                    (forall|i: int| 0 <= i < n + 1 ==> x != (#[trigger] out@[i]).id as int) implies #[trigger] self.spec_components(x)
                        == w0.spec_components(x) by {
                    assert forall|i: int| 0 <= i < n implies x != (#[trigger] out0[i]).id as int by {
                        assert(out0[i] == out@[i]);
                    }
                    assert(x != out@[n as int].id as int);
                    assert(self.spec_components(x) == wb.spec_components(x));
                    assert(wb.spec_components(x) == wa.spec_components(x));
                }
            }
            n = n + 1;
        }
        proof {
            assert(w1.spec_grown(&w1, 0, 0));
            w0.lemma_grown_trans(&w1, self, 1, 0, 0, count as nat);
            assert forall|k: nat| w0.spec_room_for((k + count + 1) as nat) implies #[trigger] self.spec_room_for(k) by {
                w0.lemma_room_after_growth(self, 1, count as nat, k, (count + 1) as nat);
            }
            assert(ids_seq.to_set() =~= inst.dom()) by {
                assert forall|c: u32| #[trigger] inst.dom().contains(c) implies ids_seq.contains(c) by {
                    let i = choose|i: int| 0 <= i < components@.len() && components@[i].component_id == c;
                    assert(ids_seq[i] == c);
                }
                assert forall|c: u32| ids_seq.contains(c) implies #[trigger] inst.dom().contains(c) by {
                    let i = choose|i: int| 0 <= i < ids_seq.len() && ids_seq[i] == c;
                    assert(components@[i].component_id == c);
                }
            }
            assert forall|s: Set<u32>| #[trigger] w0.spec_has_archetype(s) implies self.spec_has_archetype(s) by {
                w1.lemma_keeps_has_archetype(self, s);
            }
            assert(ids_are(self.archetypes@[archetype_id as int].component_ids@, inst.dom()));
        }
        out
    }

    /// Same as `spawn_empty`.
    pub fn spawn_entity(&mut self) -> (e: Entity)
        requires
            old(self).wf(),
            old(self).entity_manager.spec_can_create(),
        ensures
            final(self).wf(),
            e == old(self).entity_manager.spec_next_entity(),
            old(self).entity_manager.spec_after_create(&final(self).entity_manager),
            final(self).entity_manager.spec_alive_count() == old(self).entity_manager.spec_alive_count() + 1,
            final(self).spec_is_alive(e),
            final(self).spec_components(e.id as int) == Map::<u32, Seq<u8>>::empty(),
            forall|x: int| #[trigger] final(self).spec_components(x) == old(self).spec_components(x),
            final(self).spec_schemas() == old(self).spec_schemas(),
    {
        self.spawn_empty()
    }

    /// After `create` (and extending `locations` by one invalid entry for a
    /// new slot), the world is still well formed and nothing is placed differently.
    proof fn lemma_frame_after_create(&self, w0: World, e: Entity)
        requires
            w0.wf(),
            w0.entity_manager.spec_after_create(&self.entity_manager),
            e == w0.entity_manager.spec_next_entity(),
            self.entity_manager.wf(),
            !self.entity_manager.spec_free().contains(e.id),
            !w0.spec_placed(e.id as int),
            self.archetypes == w0.archetypes,
            self.component_registry == w0.component_registry,
            self.archetype_registry == w0.archetype_registry,
            self.resources == w0.resources,
            self.events == w0.events,
            self.locations@.len() == self.spec_generations().len(),
            forall|i: int| 0 <= i < w0.locations@.len() ==> self.locations@[i] == w0.locations@[i],
            forall|i: int| w0.locations@.len() <= i < self.locations@.len() ==> !self.locations@[i].spec_is_valid(),
        ensures
            self.wf(),
            !self.spec_placed(e.id as int),
            forall|x: int| #[trigger] self.spec_components(x) == w0.spec_components(x),
    {
        let g0 = w0.spec_generations();
        let g1 = self.spec_generations();
        assert forall|i: int| 0 <= i < g0.len() implies g1[i] == g0[i] by {
            if w0.entity_manager.spec_free().len() == 0 {
                assert(g1 == g0.push(0));
            }
        }
        assert forall|a: int| 0 <= a < self.archetypes@.len() implies #[trigger] self.arch_ok(a) by {
            assert(w0.arch_ok(a));
        }
        assert forall|i: int| 0 <= i < self.spec_schemas().len() implies #[trigger] self.schema_ok(i) by {
            assert(w0.schema_ok(i));
        }
        assert forall|i: int| 0 <= i < self.locations@.len() implies #[trigger] self.loc_ok(i) by {
            if i < w0.locations@.len() {
                assert(w0.loc_ok(i));
                if self.locations@[i].spec_is_valid() {
                    if w0.entity_manager.spec_free().len() > 0 {
                        assert(self.entity_manager.spec_free() == w0.entity_manager.spec_free().drop_last());
                        if self.entity_manager.spec_free().contains(i as u32) {
                            let k = choose|k: int| 0 <= k < self.entity_manager.spec_free().len() && self.entity_manager.spec_free()[k] == i as u32;
                            assert(w0.entity_manager.spec_free()[k] == i as u32);
                        }
                    }
                }
            }
        }
        assert forall|a: int, c: int, r: int| #[trigger] self.stored_ok(a, c, r) by {
            assert(w0.stored_ok(a, c, r));
        }
        assert(self.registry_ok()) by {
            assert(w0.registry_ok());
        }
        assert forall|x: int| #[trigger] self.spec_components(x) == w0.spec_components(x) by {
            if 0 <= x < w0.locations@.len() {
                assert(self.spec_components(x) =~= w0.spec_components(x));
            }
        }
    }

    /// Whether `entity` is alive: handed out by `create` and not destroyed since.
    pub fn is_alive(&self, entity: Entity) -> (r: bool)
        requires
            self.wf(),
        ensures
            r == self.spec_is_alive(entity),
    {
        self.entity_manager.is_alive(entity)
    }

    /// Same as `is_alive`.
    pub fn entity_exists(&self, entity: Entity) -> (r: bool)
        requires
            self.wf(),
        ensures
            r == self.spec_is_alive(entity),
    {
        self.is_alive(entity)
    }

    /// Number of alive entities.
    pub fn alive_count(&self) -> (r: u32)
        ensures
            r == self.entity_manager.spec_alive_count(),
    {
        self.entity_manager.alive_count()
    }

    /// Number of alive entities.
    pub fn entity_count(&self) -> (r: usize)
        ensures
            r == self.entity_manager.spec_alive_count(),
    {
        self.entity_manager.alive_count() as usize
    }

    /// Number of archetypes created so far.
    pub fn archetype_count(&self) -> (r: usize)
        ensures
            r == self.archetypes@.len(),
    {
        self.archetypes.len()
    }

    /// Look up a component id by its registered name.
    pub fn component_id(&self, name: &str) -> (r: Option<u32>)
        requires
            self.wf(),
        ensures
            r == self.component_registry.spec_id_of(name@),
    {
        match self.component_registry.get_by_name(name) {
            Some(s) => Some(s.id),
            None => None,
        }
    }

    // ─────────────────────────────────────────────
    // Read access
    // ─────────────────────────────────────────────

    /// Bytes of component `component_id` of the entity placed at `loc`, if its
    /// archetype has that component.
    fn get_component_bytes_at_location(&self, loc: EntityLocation, component_id: u32) -> (r: Option<&[u8]>)
        requires
            self.wf(),
            loc.spec_is_valid(),
            (loc.archetype_id as int) < self.archetypes@.len(),
            (loc.chunk_index as int) < self.archetypes@[loc.archetype_id as int].chunks@.len(),
            (loc.row as int) < self.archetypes@[loc.archetype_id as int].chunks@[loc.chunk_index as int].entities@.len(),
        ensures
            match r {
                Some(b) => {
                    &&& self.archetypes@[loc.archetype_id as int].component_ids@.contains(component_id)
                    &&& b@ == self.spec_cell(loc.archetype_id as int, loc.chunk_index as int, component_id, loc.row as nat)
                },
                None => !self.archetypes@[loc.archetype_id as int].component_ids@.contains(component_id),
            },
    {
        let archetype = &self.archetypes[loc.archetype_id as usize];
        proof {
            assert(self.arch_ok(loc.archetype_id as int));
        }
        if !archetype.has_component(component_id) {
            return None;
        }
        let col_idx = archetype.column_index(component_id);
        let chunk = &archetype.chunks[loc.chunk_index as usize];
        proof {
            let ch = archetype.chunks@[loc.chunk_index as int];
            assert(chunk_fits(ch, archetype.template_columns@));
            let col = ch.columns@[col_idx as int];
            crate::archetype::lemma_row_in_column(col.data@.len(), col.element_size as nat, ch.entities@.len(), loc.row as nat);
        }
        Some(chunk.columns[col_idx].row(loc.row as usize))
    }

    /// Raw bytes of `entity`'s component `component_id`, if `entity` is alive
    /// and has that component.
    pub fn get_component_bytes(&self, entity: Entity, component_id: u32) -> (r: Option<&[u8]>)
        requires
            self.wf(),
        ensures
            match r {
                Some(b) => {
                    &&& self.spec_is_alive(entity)
                    &&& self.spec_components(entity.id as int).dom().contains(component_id)
                    &&& b@ == self.spec_components(entity.id as int)[component_id]
                },
                None => !self.spec_is_alive(entity) || !self.spec_components(entity.id as int).dom().contains(component_id),
            },
    {
        if !self.entity_manager.is_alive(entity) {
            return None;
        }
        if (entity.id as usize) >= self.locations.len() {
            return None;
        }
        let loc = self.locations[entity.id as usize];
        if !loc.is_valid() {
            return None;
        }
        proof {
            assert(self.loc_ok(entity.id as int));
        }
        self.get_component_bytes_at_location(loc, component_id)
    }

    /// Typed field values of alive `entity`'s component `component_id`.
    pub fn get_component(&self, entity: Entity, component_id: u32) -> (r: Option<Vec<ComponentValue>>)
        requires
            self.wf(),
        ensures
            match r {
                Some(v) => {
                    &&& self.spec_is_alive(entity)
                    &&& self.spec_components(entity.id as int).dom().contains(component_id)
                    &&& v@ == spec_deserialize(
                        self.spec_schemas()[component_id as int].fields@,
                        self.spec_components(entity.id as int)[component_id],
                    )
                },
                None => !self.spec_is_alive(entity) || !self.spec_components(entity.id as int).dom().contains(component_id),
            },
    {
        let bytes = match self.get_component_bytes(entity, component_id) {
            Some(b) => b,
            None => return None,
        };
        proof {
            self.lemma_component_layout(entity.id as int, component_id);
        }
        let schema = self.component_registry.get(component_id).unwrap();
        Some(schema.deserialize(bytes))
    }

    /// Same as `get_component`.
    pub fn get(&self, entity: Entity, component_id: u32) -> (r: Option<Vec<ComponentValue>>)
        requires
            self.wf(),
        ensures
            match r {
                Some(v) => {
                    &&& self.spec_is_alive(entity)
                    &&& self.spec_components(entity.id as int).dom().contains(component_id)
                    &&& v@ == spec_deserialize(
                        self.spec_schemas()[component_id as int].fields@,
                        self.spec_components(entity.id as int)[component_id],
                    )
                },
                None => !self.spec_is_alive(entity) || !self.spec_components(entity.id as int).dom().contains(component_id),
            },
    {
        self.get_component(entity, component_id)
    }

    /// A stored component's bytes have its schema's size, and its schema is registered and well formed.
    pub proof fn lemma_component_layout(&self, id: int, c: u32)
        requires
            self.wf(),
            self.spec_components(id).dom().contains(c),
        ensures
            (c as int) < self.spec_schemas().len(),
            self.spec_components(id)[c].len() == self.spec_schemas()[c as int].size,
            fields_fit(self.spec_schemas()[c as int].fields@, self.spec_schemas()[c as int].size as nat),
    {
        let loc = self.locations@[id];
        assert(self.loc_ok(id));
        let a = loc.archetype_id as int;
        assert(self.arch_ok(a));
        let arch = self.archetypes@[a];
        let ids = arch.component_ids@;
        let k = ids.index_of(c);
        assert(0 <= k < ids.len() && ids[k] == c);
        let ch = arch.chunks@[loc.chunk_index as int];
        assert(chunk_fits(ch, arch.template_columns@));
        let col = ch.columns@[k];
        crate::archetype::lemma_row_in_column(col.data@.len(), col.element_size as nat, ch.entities@.len(), loc.row as nat);
        assert(self.schema_ok(c as int));
        crate::component::lemma_layout_fits(self.spec_schemas()[c as int].fields@, self.spec_schemas()[c as int].size as nat);
    }

    /// In a well-formed world every archetype is well formed, its component ids
    /// are strictly increasing and registered, and each column's element size
    /// is its component's size.
    pub proof fn lemma_archetype_ok(&self, a: int)
        requires
            self.wf(),
            0 <= a < self.archetypes@.len(),
        ensures
            self.archetypes@.len() < u32::MAX,
            self.archetypes@[a].wf(),
            self.archetypes@[a].id == a,
            strictly_sorted(self.archetypes@[a].component_ids@),
            forall|k: int|
                0 <= k < self.archetypes@[a].component_ids@.len() ==> {
                    &&& (#[trigger] self.archetypes@[a].component_ids@[k] as int) < self.spec_schemas().len()
                    &&& self.archetypes@[a].template_columns@[k].element_size
                        == self.spec_schemas()[self.archetypes@[a].component_ids@[k] as int].size
                },
    {
        assert(self.arch_ok(a));
    }

    /// In a well-formed world the entity stored at archetype `a`, chunk `c`,
    /// row `r` is alive, placed there, and distinct entities are stored at
    /// distinct positions.
    pub proof fn lemma_stored_entity(&self, a: int, c: int, r: int)
        requires
            self.wf(),
            0 <= a < self.archetypes@.len(),
            0 <= c < self.archetypes@[a].chunks@.len(),
            0 <= r < self.archetypes@[a].chunks@[c].entities@.len(),
        ensures
            ({
                let e = self.archetypes@[a].chunks@[c].entities@[r];
                &&& self.spec_is_alive(e)
                &&& self.spec_placed(e.id as int)
                &&& self.locations@[e.id as int] == EntityLocation { archetype_id: a as u32, chunk_index: c as u32, row: r as u32 }
            }),
    {
        assert(self.stored_ok(a, c, r));
        let e = self.archetypes@[a].chunks@[c].entities@[r];
        assert(self.loc_ok(e.id as int));
        assert(self.arch_ok(a));
        assert(chunk_fits(self.archetypes@[a].chunks@[c], self.archetypes@[a].template_columns@));
        assert((a as u32) as int == a);
        assert((c as u32) as int == c);
        assert((r as u32) as int == r);
        assert(self.locations@[e.id as int].spec_is_valid());
    }

    /// Whether a component set has an archetype depends only on the
    /// archetypes' component ids.
    proof fn lemma_archetypes_with_frame(&self, w1: &World, s: Set<u32>)
        requires
            w1.archetypes@.len() == self.archetypes@.len(),
            forall|a: int|
                0 <= a < self.archetypes@.len() ==> (#[trigger] w1.archetypes@[a]).component_ids@ == self.archetypes@[a].component_ids@,
        ensures
            w1.spec_archetypes_with(s) == self.spec_archetypes_with(s),
            w1.spec_has_archetype(s) == self.spec_has_archetype(s),
    {
        if self.spec_has_archetype(s) {
            let a = choose|a: int| 0 <= a < self.archetypes@.len() && #[trigger] ids_are(self.archetypes@[a].component_ids@, s);
            assert(w1.archetypes@[a].component_ids@ == self.archetypes@[a].component_ids@);
            assert(ids_are(w1.archetypes@[a].component_ids@, s));
        }
        if w1.spec_has_archetype(s) {
            let a = choose|a: int| 0 <= a < w1.archetypes@.len() && #[trigger] ids_are(w1.archetypes@[a].component_ids@, s);
            assert(w1.archetypes@[a].component_ids@ == self.archetypes@[a].component_ids@);
            assert(ids_are(self.archetypes@[a].component_ids@, s));
        }
    }

    /// A world that keeps the archetypes of `self` has an archetype for every
    /// component set that `self` has one for.
    pub proof fn lemma_keeps_has_archetype(&self, other: &World, s: Set<u32>)
        requires
            self.spec_keeps_archetypes(other),
            self.spec_has_archetype(s),
        ensures
            other.spec_has_archetype(s),
    {
        let a = choose|a: int| 0 <= a < self.archetypes@.len() && #[trigger] ids_are(self.archetypes@[a].component_ids@, s);
        assert(other.archetypes@[a].component_ids@ == self.archetypes@[a].component_ids@);
        assert(ids_are(other.archetypes@[a].component_ids@, s));
    }

    /// The component set of a placed entity has an archetype: the one it is
    /// stored in.
    pub proof fn lemma_placed_has_archetype(&self, id: int)
        requires
            self.wf(),
            self.spec_placed(id),
        ensures
            self.spec_has_archetype(self.spec_components(id).dom()),
    {
        assert(self.loc_ok(id));
        let a = self.locations@[id].archetype_id as int;
        assert(ids_are(self.archetypes@[a].component_ids@, self.spec_components(id).dom()));
    }

    /// One archetype per component set: two archetypes of a well-formed world
    /// with the same component ids are the same archetype.
    pub proof fn lemma_archetype_unique(&self, a: int, b: int)
        requires
            self.wf(),
            0 <= a < self.archetypes@.len(),
            0 <= b < self.archetypes@.len(),
            same_elements(self.archetypes@[a].component_ids@, self.archetypes@[b].component_ids@),
        ensures
            a == b,
    {
        assert(self.arch_ok(a));
        assert(self.arch_ok(b));
        assert(self.registry_ok());
        lemma_sorted_unique(self.archetypes@[a].component_ids@, self.archetypes@[b].component_ids@);
    }

    /// Every existing slot has a location entry.
    pub proof fn lemma_locations_len(&self)
        requires
            self.wf(),
        ensures
            self.locations@.len() == self.spec_generations().len(),
    {
    }

    /// A placed slot's location names an existing row that holds it.
    pub proof fn lemma_placed_location(&self, id: int)
        requires
            self.wf(),
            self.spec_placed(id),
        ensures
            ({
                let loc = self.locations@[id];
                &&& (loc.archetype_id as int) < self.archetypes@.len()
                &&& (loc.chunk_index as int) < self.archetypes@[loc.archetype_id as int].chunks@.len()
                &&& (loc.row as int) < self.archetypes@[loc.archetype_id as int].chunks@[loc.chunk_index as int].entities@.len()
                &&& self.archetypes@[loc.archetype_id as int].chunks@[loc.chunk_index as int].entities@[loc.row as int].id == id
            }),
    {
        assert(self.loc_ok(id));
    }

    /// Growth by at most `na` archetypes and `d` chunks per archetype uses up
    /// at most `max(na, d)` of the room.
    pub proof fn lemma_room_after_growth(&self, other: &World, na: nat, d: nat, k: nat, m: nat)
        requires
            self.spec_grown(other, na, d),
            na <= m,
            d <= m,
            self.spec_room_for(k + m),
        ensures
            other.spec_room_for(k),
    {
        assert forall|a: int| 0 <= a < other.archetypes@.len() implies (#[trigger] other.archetypes@[a]).chunks@.len() + k + 1
            < u32::MAX by {
            if a < self.archetypes@.len() {
                assert(self.archetypes@[a].chunks@.len() + (k + m) + 1 < u32::MAX);
            }
        }
    }

    /// Growth composes.
    pub proof fn lemma_grown_trans(&self, w1: &World, w2: &World, na1: nat, d1: nat, na2: nat, d2: nat)
        requires
            self.spec_grown(w1, na1, d1),
            w1.spec_grown(w2, na2, d2),
        ensures
            self.spec_grown(w2, na1 + na2, d1 + d2),
    {
        assert forall|a: int| 0 <= a < w2.archetypes@.len() implies (#[trigger] w2.archetypes@[a]).chunks@.len() <= (if a
            < self.archetypes@.len() {
            self.archetypes@[a].chunks@.len()
        } else {
            0
        }) + (d1 + d2) by {
            if a < w1.archetypes@.len() {
                assert(w1.archetypes@[a].chunks@.len() <= (if a < self.archetypes@.len() {
                    self.archetypes@[a].chunks@.len()
                } else {
                    0
                }) + d1);
            }
        }
    }

    /// A placed slot is not on the free list.
    pub proof fn lemma_placed_not_free(&self, id: int)
        requires
            self.wf(),
            self.spec_placed(id),
        ensures
            !self.entity_manager.spec_free().contains(id as u32),
            self.spec_generations().len() > id,
    {
        assert(self.loc_ok(id));
    }

    /// In a well-formed world every registered component schema has a
    /// well-formed layout of at least one byte.
    pub proof fn lemma_schema_wf(&self, i: int)
        requires
            self.wf(),
            0 <= i < self.spec_schemas().len(),
        ensures
            self.spec_schemas()[i].wf(),
            self.spec_schemas()[i].size > 0,
    {
        assert(self.schema_ok(i));
    }

    /// Registered schema `i` is well formed and at least one byte wide.
    pub closed spec fn schema_ok(&self, i: int) -> bool {
        &&& self.spec_schemas()[i].wf()
        &&& self.spec_schemas()[i].size > 0
    }

    /// Whether `entity` is alive and has component `component_id`.
    pub fn has_component(&self, entity: Entity, component_id: u32) -> (r: bool)
        requires
            self.wf(),
        ensures
            r == (self.spec_is_alive(entity) && self.spec_components(entity.id as int).dom().contains(component_id)),
    {
        if !self.entity_manager.is_alive(entity) {
            return false;
        }
        let loc = self.locations[entity.id as usize];
        if !loc.is_valid() {
            return false;
        }
        proof {
            assert(self.loc_ok(entity.id as int));
            assert(self.arch_ok(loc.archetype_id as int));
        }
        self.archetypes[loc.archetype_id as usize].has_component(component_id)
    }

    /// Same as `has_component`.
    pub fn has(&self, entity: Entity, component_id: u32) -> (r: bool)
        requires
            self.wf(),
        ensures
            r == (self.spec_is_alive(entity) && self.spec_components(entity.id as int).dom().contains(component_id)),
    {
        self.has_component(entity, component_id)
    }
}

impl Default for World {
    /// An empty world: no entities, components, archetypes, resources or events.
    fn default() -> (r: Self)
        ensures
            r.wf(),
            forall|n: Seq<char>| #[trigger] r.component_registry.spec_id_of(n) is None,
            forall|n: Seq<char>| #[trigger] r.resources.spec_id_of(n) is None,
            forall|n: Seq<char>| #[trigger] r.events.spec_id_of(n) is None,
            r.spec_generations() == Seq::<u32>::empty(),
            r.entity_manager.spec_alive_count() == 0,
            r.spec_schemas() == Seq::<ComponentSchema>::empty(),
            r.archetypes@ == Seq::<Archetype>::empty(),
            r.resources.spec_schemas() == Seq::<ComponentSchema>::empty(),
            r.resources.spec_data() == Map::<u32, Seq<u8>>::empty(),
            r.events.spec_schemas() == Seq::<ComponentSchema>::empty(),
            r.events.spec_queues() == Map::<u32, Seq<Seq<u8>>>::empty(),
            forall|k: nat| k + 1 < u32::MAX ==> #[trigger] r.spec_room_for(k),
    {
        World::new()
    }
}

} // verus!
