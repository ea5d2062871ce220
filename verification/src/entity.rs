use vstd::prelude::*;
use crate::text::{push_str, push_u64, spec_decimal};

verus! {

/// Entity handle: a generational index (`id` selects the slot, `generation`
/// tells apart successive occupants of that slot).
#[derive(Debug, Clone, Copy, PartialEq, Eq, Hash, Structural)]
pub struct Entity {
    pub id: u32,
    pub generation: u32,
}

impl Entity {
    /// The sentinel handle `{ id: u32::MAX, generation: u32::MAX }`.
    pub fn invalid() -> (r: Entity)
        ensures
            r.id == u32::MAX,
            r.generation == u32::MAX,
    {
        Entity { id: u32::MAX, generation: u32::MAX }
    }

    /// The text `Entity(<id>, gen=<generation>)`.
    pub open spec fn spec_to_string(self) -> Seq<char> {
        "Entity("@ + spec_decimal(self.id as nat) + ", gen="@ + spec_decimal(
            self.generation as nat,
        ) + ")"@
    }

    /// Human-readable form, `Entity(<id>, gen=<generation>)`.
    pub fn to_string(&self) -> (r: String)
        ensures
            r@ == self.spec_to_string(),
    {
        let mut s = String::new();
        push_str(&mut s, "Entity(");
        push_u64(&mut s, self.id as u64);
        push_str(&mut s, ", gen=");
        push_u64(&mut s, self.generation as u64);
        push_str(&mut s, ")");
        s
    }
}

/// Manages entity lifecycle with generational recycling.
///
/// Slot `id` exists for `id < generations.len()`; its current generation is
/// `generations[id]`, and `live[id]` tells whether its current handle is
/// handed out. Destroyed slots are kept on a LIFO free list and handed out
/// again (with their bumped generation) by `create`.
pub struct EntityManager {
    generations: Vec<u32>,
    live: Vec<bool>,
    free_ids: Vec<u32>,
    alive_count: u32,
}

impl EntityManager {
    /// Current generation of every slot.
    pub closed spec fn spec_generations(&self) -> Seq<u32> {
        self.generations@
    }

    /// Free slots, in the order they were freed (the last one is reused first).
    pub closed spec fn spec_free(&self) -> Seq<u32> {
        self.free_ids@
    }

    pub closed spec fn spec_alive_count(&self) -> u32 {
        self.alive_count
    }

    /// Whether each slot's current handle is handed out.
    pub closed spec fn spec_live(&self) -> Seq<bool> {
        self.live@
    }

    /// Internal consistency: the free list holds distinct, existing slots, and
    /// the alive count is the number of slots not on it.
    pub open spec fn wf(&self) -> bool {
        &&& self.spec_generations().len() <= u32::MAX
        &&& self.spec_free().no_duplicates()
        &&& forall|i: int|
            0 <= i < self.spec_free().len() ==> #[trigger] self.spec_free()[i]
                < self.spec_generations().len()
        &&& self.spec_alive_count() == self.spec_generations().len() - self.spec_free().len()
        &&& self.spec_live().len() == self.spec_generations().len()
        &&& forall|i: int|
            0 <= i < self.spec_live().len() ==> #[trigger] self.spec_live()[i] == !self.spec_free().contains(i as u32)
    }

    /// `e` was handed out by `create` and not destroyed since: it names a slot
    /// that is not on the free list and carries that slot's current generation.
    pub open spec fn spec_is_alive(&self, e: Entity) -> bool {
        &&& (e.id as int) < self.spec_generations().len()
        &&& self.spec_generations()[e.id as int] == e.generation
        &&& !self.spec_free().contains(e.id)
    }

    /// `create` can hand out one more handle without overflowing an id or the count.
    pub open spec fn spec_can_create(&self) -> bool {
        self.spec_free().len() > 0 || self.spec_generations().len() < u32::MAX
    }

    /// What `create` returns.
    pub open spec fn spec_next_entity(&self) -> Entity {
        if self.spec_free().len() > 0 {
            let id = self.spec_free().last();
            Entity { id, generation: self.spec_generations()[id as int] }
        } else {
            Entity { id: self.spec_generations().len() as u32, generation: 0 }
        }
    }

    /// The manager after `create`.
    pub open spec fn spec_after_create(&self, other: &Self) -> bool {
        if self.spec_free().len() > 0 {
            &&& other.spec_generations() == self.spec_generations()
            &&& other.spec_free() == self.spec_free().drop_last()
        } else {
            &&& other.spec_generations() == self.spec_generations().push(0)
            &&& other.spec_free() == self.spec_free()
        }
    }

    pub fn new() -> (r: Self)
        ensures
            r.wf(),
            r.spec_generations() == Seq::<u32>::empty(),
            r.spec_free() == Seq::<u32>::empty(),
            r.spec_alive_count() == 0,
    {
        EntityManager { generations: Vec::new(), live: Vec::new(), free_ids: Vec::new(), alive_count: 0 }
    }

    /// Hand out a handle: the most recently freed slot (with its current
    /// generation) if there is one, else a fresh slot with generation 0.
    pub fn create(&mut self) -> (e: Entity)
        requires
            old(self).wf(),
            old(self).spec_can_create(),
        ensures
            final(self).wf(),
            e == old(self).spec_next_entity(),
            old(self).spec_after_create(final(self)),
            final(self).spec_alive_count() == old(self).spec_alive_count() + 1,
            final(self).spec_is_alive(e),
            !final(self).spec_free().contains(e.id),
            forall|x: Entity| #[trigger] old(self).spec_is_alive(x) ==> x.id != e.id && final(self).spec_is_alive(x),
    {
        self.alive_count = self.alive_count + 1;
        match self.free_ids.pop() {
            Some(id) => {
                proof {
                    let f = old(self).free_ids@;
                    assert(f.drop_last() == self.free_ids@);
                    assert forall|i: int, j: int|
                        0 <= i < self.free_ids@.len() && 0 <= j < self.free_ids@.len() && i != j
                        implies self.free_ids@[i] != self.free_ids@[j] by {
                        assert(self.free_ids@[i] == f[i] && self.free_ids@[j] == f[j]);
                    }
                    assert forall|i: int| 0 <= i < self.free_ids@.len() implies #[trigger] self.free_ids@[i] < self.generations@.len() by {
                        assert(self.free_ids@[i] == f[i]);
                    }
                    if self.free_ids@.contains(id) {
                        let k = choose|k: int| 0 <= k < self.free_ids@.len() && self.free_ids@[k] == id;
                        assert(f[k] == f[f.len() - 1]);
                    }
                    assert(f[f.len() - 1] < self.generations@.len());
                }
                let ghost live0 = self.live@;
                self.live.set(id as usize, true);
                proof {
                    let f = old(self).free_ids@;
                    assert forall|i: int| 0 <= i < self.live@.len() implies #[trigger] self.live@[i] == !self.free_ids@.contains(i as u32) by {
                        assert(live0[i] == !f.contains(i as u32));
                        if i == id as int {
                        } else {
                            if f.contains(i as u32) {
                                let k = choose|k: int| 0 <= k < f.len() && f[k] == i as u32;
                                assert(k != f.len() - 1);
                                assert(self.free_ids@[k] == f[k]);
                            }
                            if self.free_ids@.contains(i as u32) {
                                let k = choose|k: int| 0 <= k < self.free_ids@.len() && self.free_ids@[k] == i as u32;
                                assert(f[k] == self.free_ids@[k]);
                            }
                        }
                    }
                }
                Entity { id, generation: self.generations[id as usize] }
            },
            None => {
                let id = self.generations.len() as u32;
                self.generations.push(0);
                self.live.push(true);
                proof {
                    assert forall|i: int| 0 <= i < self.free_ids@.len() implies #[trigger] self.free_ids@[i] < self.generations@.len() by {
                        assert(old(self).free_ids@[i] < old(self).generations@.len());
                    }
                    assert forall|i: int| 0 <= i < self.live@.len() implies #[trigger] self.live@[i] == !self.free_ids@.contains(i as u32) by {
                        if i < old(self).live@.len() {
                            assert(self.live@[i] == old(self).live@[i]);
                        }
                    }
                }
                Entity { id, generation: 0 }
            },
        }
    }

    /// Retire `entity`: if it is alive, bump its slot's generation (wrapping)
    /// and push the slot on the free list; otherwise do nothing.
    pub fn destroy(&mut self, entity: Entity)
        requires
            old(self).wf(),
        ensures
            final(self).wf(),
            old(self).spec_is_alive(entity) ==> {
                &&& final(self).spec_generations() == old(self).spec_generations().update(
                    entity.id as int,
                    vstd::wrapping::u32_specs::wrapping_add(entity.generation, 1),
                )
                &&& final(self).spec_free() == old(self).spec_free().push(entity.id)
                &&& final(self).spec_alive_count() == old(self).spec_alive_count() - 1
            },
            !old(self).spec_is_alive(entity) ==> *final(self) == *old(self),
            !final(self).spec_is_alive(entity),
    {
        let idx = entity.id as usize;
        if idx >= self.generations.len() {
            return;
        }
        if self.generations[idx] != entity.generation || !self.live[idx] {
            return;
        }
        let g = self.generations[idx].wrapping_add(1);
        proof {
            assert(g != entity.generation);
        }
        self.generations.set(idx, g);
        let ghost f = self.free_ids@;
        let ghost live0 = self.live@;
        self.free_ids.push(entity.id);
        self.live.set(idx, false);
        proof {
            assert(!f.contains(entity.id));
            assert forall|i: int| 0 <= i < self.live@.len() implies #[trigger] self.live@[i] == !self.free_ids@.contains(i as u32) by {
                assert(live0[i] == !f.contains(i as u32));
                if i != idx as int {
                    if self.free_ids@.contains(i as u32) {
                        let k = choose|k: int| 0 <= k < self.free_ids@.len() && self.free_ids@[k] == i as u32;
                        if k < f.len() {
                            assert(f[k] == self.free_ids@[k]);
                        }
                    }
                    if f.contains(i as u32) {
                        let k = choose|k: int| 0 <= k < f.len() && f[k] == i as u32;
                        assert(self.free_ids@[k] == f[k]);
                    }
                } else {
                    assert(self.free_ids@[f.len() as int] == entity.id);
                }
            }
            assert forall|i: int, j: int|
                0 <= i < self.free_ids@.len() && 0 <= j < self.free_ids@.len() && i != j
                implies self.free_ids@[i] != self.free_ids@[j] by {
                if i < f.len() && j < f.len() {
                    assert(self.free_ids@[i] == f[i] && self.free_ids@[j] == f[j]);
                } else if i < f.len() {
                    assert(self.free_ids@[i] == f[i]);
                    assert(f.contains(f[i]));
                } else if j < f.len() {
                    assert(self.free_ids@[j] == f[j]);
                    assert(f.contains(f[j]));
                }
            }
            assert forall|i: int| 0 <= i < self.free_ids@.len() implies #[trigger] self.free_ids@[i] < self.generations@.len() by {
                if i < f.len() {
                    assert(self.free_ids@[i] == f[i]);
                }
            }
            // the slot was not free, so at least one slot is alive
            assert(self.alive_count > 0) by {
                lemma_free_len_bound(f, old(self).generations@.len(), entity.id);
            }
        }
        if self.alive_count > 0 {
            self.alive_count = self.alive_count - 1;
        }
    }

    /// Whether `entity` was handed out by `create` and not destroyed since.
    pub fn is_alive(&self, entity: Entity) -> (r: bool)
        requires
            self.wf(),
        ensures
            r == self.spec_is_alive(entity),
    {
        let idx = entity.id as usize;
        if idx < self.generations.len() {
            proof {
                assert(self.live@[idx as int] == !self.free_ids@.contains(idx as u32));
            }
            self.generations[idx] == entity.generation && self.live[idx]
        } else {
            false
        }
    }

    /// Whether `create` can hand out one more handle.
    pub fn can_create(&self) -> (r: bool)
        ensures
            r == self.spec_can_create(),
    {
        self.free_ids.len() > 0 || (self.generations.len() as u64) < 0xffff_ffffu64
    }

    /// Number of handed-out, not yet destroyed handles.
    pub fn alive_count(&self) -> (r: u32)
        ensures
            r == self.spec_alive_count(),
    {
        self.alive_count
    }

    /// Number of slots ever created.
    pub fn total_count(&self) -> (r: u32)
        requires
            self.wf(),
        ensures
            r == self.spec_generations().len(),
    {
        self.generations.len() as u32
    }

    /// Current generation of slot `id`, or `u32::MAX` if there is no such slot.
    pub fn generation_of(&self, id: u32) -> (r: u32)
        ensures
            (id as int) < self.spec_generations().len() ==> r == self.spec_generations()[id as int],
            (id as int) >= self.spec_generations().len() ==> r == u32::MAX,
    {
        if (id as usize) < self.generations.len() {
            self.generations[id as usize]
        } else {
            u32::MAX
        }
    }
}

impl Default for EntityManager {
    fn default() -> (r: Self)
        ensures
            r.wf(),
            r.spec_generations() == Seq::<u32>::empty(),
            r.spec_free() == Seq::<u32>::empty(),
            r.spec_alive_count() == 0,
    {
        Self::new()
    }
}

/// A duplicate-free sequence of values below `n` that misses `x < n` is shorter than `n`.
proof fn lemma_free_len_bound(f: Seq<u32>, n: nat, x: u32)
    requires
        f.no_duplicates(),
        forall|i: int| 0 <= i < f.len() ==> #[trigger] f[i] < n,
        !f.contains(x),
        x < n,
        n <= u32::MAX + 1,
    ensures
        f.len() < n,
{
    let s = f.to_set();
    f.unique_seq_to_set();
    let full = Set::new(|v: u32| v < n);
    assert(s.subset_of(full.remove(x))) by {
        assert forall|v: u32| s.contains(v) implies full.remove(x).contains(v) by {
            let k = choose|k: int| 0 <= k < f.len() && f[k] == v;
        }
    }
    lemma_u32_range_set_len(n);
    vstd::set_lib::lemma_len_subset(s, full.remove(x));
}

proof fn lemma_u32_range_set_len(n: nat)
    requires
        n <= u32::MAX + 1,
    ensures
        Set::new(|v: u32| v < n).finite(),
        Set::new(|v: u32| v < n).len() == n,
    decreases n,
{
    if n == 0 {
        assert(Set::new(|v: u32| v < 0nat) =~= Set::<u32>::empty());
    } else {
        lemma_u32_range_set_len((n - 1) as nat);
        let m = (n - 1) as u32;
        assert(Set::new(|v: u32| v < n) =~= Set::new(|v: u32| v < (n - 1) as nat).insert(m));
    }
}

} // verus!
