use vstd::prelude::*;
use crate::bitset::ComponentMask;
use crate::constants::CHUNK_CAPACITY;
use crate::entity::Entity;
use crate::maps::{index_map_contains, index_map_contents, index_map_get, index_map_insert, index_map_new, IndexMap};

verus! {

/// Bytes of row `index` of a column of `es`-byte elements.
pub open spec fn spec_row(data: Seq<u8>, es: nat, index: nat) -> Seq<u8> {
    data.subrange((index * es) as int, (index * es + es) as int)
}

/// Number of whole `es`-byte rows in `data` (0 when `es` is 0).
pub open spec fn spec_rows(data: Seq<u8>, es: nat) -> nat {
    if es == 0 {
        0
    } else {
        data.len() / es
    }
}

/// Column bytes after removing row `index` by moving the last row into its place.
pub open spec fn spec_swap_remove_rows(data: Seq<u8>, es: nat, index: nat) -> Seq<u8> {
    let count = spec_rows(data, es);
    let moved = if index + 1 < count {
        data.subrange(0, (index * es) as int) + spec_row(data, es, (count - 1) as nat) + data.subrange(
            (index * es + es) as int,
            data.len() as int,
        )
    } else {
        data
    };
    moved.subrange(0, ((count - 1) * es) as int)
}

/// Column bytes with row `index` replaced by `b`.
pub open spec fn spec_write_row(data: Seq<u8>, es: nat, index: nat, b: Seq<u8>) -> Seq<u8> {
    data.subrange(0, (index * es) as int) + b + data.subrange((index * es + es) as int, data.len() as int)
}

/// Raw struct-of-arrays column: contiguous bytes of one component type, one
/// `element_size`-byte row per entity.
pub struct Column {
    pub component_id: u32,
    pub element_size: usize,
    pub data: Vec<u8>,
}

impl Column {
    pub open spec fn spec_len(&self) -> nat {
        spec_rows(self.data@, self.element_size as nat)
    }

    /// An empty column.
    pub fn new(component_id: u32, element_size: usize) -> (r: Self)
        ensures
            r.component_id == component_id,
            r.element_size == element_size,
            r.data@ == Seq::<u8>::empty(),
    {
        Self { component_id, element_size, data: Vec::new() }
    }

    /// Number of whole rows (0 for zero-sized elements).
    pub fn len(&self) -> (r: usize)
        ensures
            r == self.spec_len(),
    {
        if self.element_size == 0 {
            0
        } else {
            self.data.len() / self.element_size
        }
    }

    /// Whether no bytes are stored.
    pub fn is_empty(&self) -> (r: bool)
        ensures
            r == (self.data@.len() == 0),
    {
        self.data.is_empty()
    }

    /// Bytes of row `index`.
    pub fn row(&self, index: usize) -> (r: &[u8])
        requires
            (index + 1) * self.element_size <= self.data@.len(),
        ensures
            r@ == spec_row(self.data@, self.element_size as nat, index as nat),
    {
        let dlen = self.data.len();
        proof {
            lemma_row_bounds(index as nat, self.element_size as nat, self.data@.len());
        }
        let start = index * self.element_size;
        &self.data.as_slice()[start..start + self.element_size]
    }

    /// Mutable bytes of row `index`; writes through it land in that row only.
    pub fn row_mut(&mut self, index: usize) -> (r: &mut [u8])
        requires
            (index + 1) * old(self).element_size <= old(self).data@.len(),
        ensures
            r@ == spec_row(old(self).data@, old(self).element_size as nat, index as nat),
            final(self).component_id == old(self).component_id,
            final(self).element_size == old(self).element_size,
            final(self).data@ == old(self).data@.subrange(0, (index * old(self).element_size) as int)
                + final(r)@ + old(self).data@.subrange(
                ((index + 1) * old(self).element_size) as int,
                old(self).data@.len() as int,
            ),
    {
        let dlen = self.data.len();
        proof {
            lemma_row_bounds(index as nat, self.element_size as nat, self.data@.len());
        }
        let start = index * self.element_size;
        let es = self.element_size;
        let s = self.data.as_mut_slice();
        let (_head, rest) = s.split_at_mut(start);
        let (row, _tail) = rest.split_at_mut(es);
        row
    }

    /// Append the bytes of one row.
    pub fn push_bytes(&mut self, bytes: &[u8])
        requires
            bytes@.len() == old(self).element_size,
        ensures
            final(self).data@ == old(self).data@ + bytes@,
            final(self).component_id == old(self).component_id,
            final(self).element_size == old(self).element_size,
    {
        crate::component::extend_bytes(&mut self.data, bytes);
    }

    /// Overwrite row `index` with `bytes`.
    pub fn write_row(&mut self, index: usize, bytes: &[u8])
        requires
            (index + 1) * old(self).element_size <= old(self).data@.len(),
            bytes@.len() == old(self).element_size,
        ensures
            final(self).component_id == old(self).component_id,
            final(self).element_size == old(self).element_size,
            final(self).data@ == spec_write_row(old(self).data@, old(self).element_size as nat, index as nat, bytes@),
    {
        let ghost d0 = self.data@;
        let dlen = self.data.len();
        proof {
            lemma_row_bounds(index as nat, self.element_size as nat, self.data@.len());
        }
        let start = index * self.element_size;
        let n = bytes.len();
        let mut k: usize = 0;
        while k < n
            invariant
                n == bytes@.len(),
                n == self.element_size,
                self.component_id == old(self).component_id,
                self.element_size == old(self).element_size,
                start + n <= d0.len(),
                d0.len() == dlen,
                start == index * self.element_size,
                k <= n,
                self.data@.len() == d0.len(),
                forall|p: int|
                    0 <= p < d0.len() ==> #[trigger] self.data@[p] == if start <= p < start + k {
                        bytes@[p - start]
                    } else {
                        d0[p]
                    },
            decreases n - k,
        {
            self.data.set(start + k, bytes[k]);
            k = k + 1;
        }
        assert(self.data@ =~= spec_write_row(d0, self.element_size as nat, index as nat, bytes@));
    }

    /// Swap-remove: copy the last row over row `index`, then drop the last row.
    pub fn swap_remove(&mut self, index: usize) -> (swapped: bool)
        requires
            index < old(self).spec_len(),
        ensures
            swapped == (index + 1 < old(self).spec_len()),
            final(self).data@ == spec_swap_remove_rows(
                old(self).data@,
                old(self).element_size as nat,
                index as nat,
            ),
            final(self).component_id == old(self).component_id,
            final(self).element_size == old(self).element_size,
    {
        let count = self.len();
        let es = self.element_size;
        let ghost d0 = self.data@;
        let dlen = self.data.len();
        proof {
            lemma_rows_bound(d0, es as nat, count as nat);
        }
        let swapped = index < count - 1;
        if swapped {
            proof {
                lemma_swap_bounds(index as nat, count as nat, es as nat, d0.len());
            }
            let last_start = (count - 1) * es;
            let dst_start = index * es;
            let mut k: usize = 0;
            while k < es
                invariant
                    es == self.element_size,
                    self.component_id == old(self).component_id,
                    d0.len() == dlen,
                    dst_start == index * es,
                    last_start == (count - 1) * es,
                    dst_start + es <= last_start,
                    last_start + es <= d0.len(),
                    k <= es,
                    self.data@.len() == d0.len(),
                    forall|p: int|
                        0 <= p < d0.len() ==> #[trigger] self.data@[p] == if dst_start <= p
                            < dst_start + k {
                            d0[p - dst_start + last_start]
                        } else {
                            d0[p]
                        },
                decreases es - k,
            {
                let b = self.data[last_start + k];
                self.data.set(dst_start + k, b);
                k = k + 1;
            }
            proof {
                let moved = d0.subrange(0, (index * es) as int) + spec_row(d0, es as nat, (count - 1) as nat)
                    + d0.subrange((index * es + es) as int, d0.len() as int);
                assert(self.data@ =~= moved);
            }
        }
        self.data.truncate((count - 1) * es);
        swapped
    }
}

proof fn lemma_row_bounds(index: nat, es: nat, len: nat)
    by (nonlinear_arith)
    requires
        (index + 1) * es <= len,
    ensures
        index * es + es == (index + 1) * es,
        index * es <= len,
{
}

proof fn lemma_swap_bounds(index: nat, count: nat, es: nat, len: nat)
    by (nonlinear_arith)
    requires
        count * es <= len,
        index + 1 < count,
    ensures
        (count - 1) * es + es <= len,
        index * es + es <= (count - 1) * es,
        (count - 1) * es <= len,
{
}

/// `count` whole rows of `es` bytes fit in `data`.
proof fn lemma_rows_bound(data: Seq<u8>, es: nat, count: nat)
    requires
        count == spec_rows(data, es),
    ensures
        count * es <= data.len(),
        count > 0 ==> (count - 1) * es + es <= data.len(),
{
    if es > 0 {
        vstd::arithmetic::div_mod::lemma_fundamental_div_mod(data.len() as int, es as int);
        vstd::arithmetic::mul::lemma_mul_is_commutative(es as int, count as int);
        if count > 0 {
            vstd::arithmetic::mul::lemma_mul_is_distributive_sub_other_way(es as int, count as int, 1);
        }
    }
}

/// A chunk holds up to `CHUNK_CAPACITY` entities of one archetype: the
/// entities in row order and one column per component.
pub struct Chunk {
    pub entities: Vec<Entity>,
    pub columns: Vec<Column>,
}

impl Chunk {
    /// An empty chunk with one empty column per template column (same
    /// component ids and element sizes).
    pub fn new(template_columns: &[Column]) -> (r: Self)
        ensures
            r.entities@ == Seq::<Entity>::empty(),
            r.columns@.len() == template_columns@.len(),
            forall|i: int|
                0 <= i < template_columns@.len() ==> {
                    &&& (#[trigger] r.columns@[i]).component_id == template_columns@[i].component_id
                    &&& r.columns@[i].element_size == template_columns@[i].element_size
                    &&& r.columns@[i].data@ == Seq::<u8>::empty()
                },
    {
        let mut columns: Vec<Column> = Vec::new();
        let mut i: usize = 0;
        while i < template_columns.len()
            invariant
                i <= template_columns@.len(),
                columns@.len() == i,
                forall|k: int|
                    0 <= k < i ==> {
                        &&& (#[trigger] columns@[k]).component_id == template_columns@[k].component_id
                        &&& columns@[k].element_size == template_columns@[k].element_size
                        &&& columns@[k].data@ == Seq::<u8>::empty()
                    },
            decreases template_columns@.len() - i,
        {
            let c = &template_columns[i];
            columns.push(Column::new(c.component_id, c.element_size));
            i = i + 1;
        }
        Self { entities: Vec::new(), columns }
    }

    pub fn len(&self) -> (r: usize)
        ensures
            r == self.entities@.len(),
    {
        self.entities.len()
    }

    pub fn is_empty(&self) -> (r: bool)
        ensures
            r == (self.entities@.len() == 0),
    {
        self.entities.is_empty()
    }

    /// Whether the chunk holds `CHUNK_CAPACITY` or more entities.
    pub fn is_full(&self) -> (r: bool)
        ensures
            r == (self.entities@.len() >= CHUNK_CAPACITY),
    {
        self.entities.len() >= CHUNK_CAPACITY
    }

    /// Append one entity row (column data is written separately).
    pub fn push_entity(&mut self, entity: Entity)
        ensures
            final(self).entities@ == old(self).entities@.push(entity),
            final(self).columns@ == old(self).columns@,
    {
        self.entities.push(entity);
    }

    /// Swap-remove row `row` from the entities and every column. Returns the
    /// entity that was moved into `row` (the former last one), if any.
    pub fn swap_remove_row(&mut self, row: usize) -> (moved: Option<Entity>)
        requires
            row < old(self).entities@.len(),
            forall|i: int| 0 <= i < old(self).columns@.len() ==> row < (#[trigger] old(self).columns@[i]).spec_len(),
        ensures
            final(self).entities@ == old(self).entities@.update(row as int, old(self).entities@.last()).drop_last(),
            moved == if row + 1 < old(self).entities@.len() {
                Some(old(self).entities@.last())
            } else {
                None
            },
            final(self).columns@.len() == old(self).columns@.len(),
            forall|i: int|
                0 <= i < old(self).columns@.len() ==> {
                    &&& (#[trigger] final(self).columns@[i]).data@ == spec_swap_remove_rows(
                        old(self).columns@[i].data@,
                        old(self).columns@[i].element_size as nat,
                        row as nat,
                    )
                    &&& final(self).columns@[i].component_id == old(self).columns@[i].component_id
                    &&& final(self).columns@[i].element_size == old(self).columns@[i].element_size
                },
    {
        let count = self.entities.len();
        let n = self.columns.len();
        let mut i: usize = 0;
        while i < n
            invariant
                n == self.columns@.len(),
                n == old(self).columns@.len(),
                i <= n,
                self.entities@ == old(self).entities@,
                forall|k: int|
                    i <= k < n ==> #[trigger] self.columns@[k] == old(self).columns@[k],
                forall|k: int| 0 <= k < n ==> row < (#[trigger] old(self).columns@[k]).spec_len(),
                forall|k: int|
                    0 <= k < i ==> {
                        &&& (#[trigger] self.columns@[k]).data@ == spec_swap_remove_rows(
                            old(self).columns@[k].data@,
                            old(self).columns@[k].element_size as nat,
                            row as nat,
                        )
                        &&& self.columns@[k].component_id == old(self).columns@[k].component_id
                        &&& self.columns@[k].element_size == old(self).columns@[k].element_size
                    },
            decreases n - i,
        {
            self.columns[i].swap_remove(row);
            i = i + 1;
        }
        if row < count - 1 {
            let moved = self.entities[count - 1];
            self.entities.swap_remove(row);
            Some(moved)
        } else {
            let ghost e0 = self.entities@;
            self.entities.pop();
            assert(self.entities@ =~= e0.update(row as int, e0.last()).drop_last());
            None
        }
    }
}

} // verus!

verus! {

/// Archetype: storage for all entities with exactly the same component set.
///
/// `component_ids[k]` is stored in column `k` of every chunk; `column_lookup`
/// maps a component id to its column index and `mask` has the bits of the
/// component ids set. `template_columns` are empty columns with the right ids
/// and element sizes, copied for each new chunk.
pub struct Archetype {
    pub id: u32,
    pub component_ids: Vec<u32>,
    pub chunks: Vec<Chunk>,
    pub column_lookup: IndexMap,
    pub mask: ComponentMask,
    pub template_columns: Vec<Column>,
}

/// Chunk `ch` has one column per template column (same id and element
/// size), each holding exactly one row per entity, and at most `CHUNK_CAPACITY` entities.
pub open spec fn chunk_fits(ch: Chunk, template: Seq<Column>) -> bool {
    &&& ch.columns@.len() == template.len()
    &&& ch.entities@.len() <= CHUNK_CAPACITY
    &&& forall|k: int|
        0 <= k < template.len() ==> {
            &&& (#[trigger] ch.columns@[k]).component_id == template[k].component_id
            &&& ch.columns@[k].element_size == template[k].element_size
            &&& ch.columns@[k].data@.len() == ch.entities@.len() * template[k].element_size
        }
}

impl Archetype {
    pub open spec fn spec_template(&self) -> Seq<Column> {
        self.template_columns@
    }

    /// Column index of component `cid` (its position in `component_ids`).
    pub open spec fn spec_column_of(&self, cid: u32) -> int {
        self.component_ids@.index_of(cid)
    }

    /// Internal consistency of the archetype's bookkeeping and storage.
    pub open spec fn wf(&self) -> bool {
        let ids = self.component_ids@;
        let t = self.spec_template();
        &&& ids.no_duplicates()
        &&& t.len() == ids.len()
        &&& forall|k: int|
            0 <= k < ids.len() ==> {
                &&& (#[trigger] t[k]).component_id == ids[k]
                &&& t[k].element_size > 0
                &&& t[k].data@ == Seq::<u8>::empty()
            }
        &&& forall|c: u32| #[trigger] index_map_contents(self.column_lookup).dom().contains(c) <==> ids.contains(c)
        &&& forall|k: int| 0 <= k < ids.len() ==> index_map_contents(self.column_lookup)[#[trigger] ids[k]] == k
        &&& forall|b: nat| #[trigger] self.mask@.contains(b) <==> (b <= u32::MAX && ids.contains(b as u32))
        &&& self.chunks@.len() <= u32::MAX
        &&& forall|j: int| 0 <= j < self.chunks@.len() ==> chunk_fits(#[trigger] self.chunks@[j], t)
    }

    /// A fresh archetype with no chunks. Column `k` gets id `component_ids[k]`
    /// and element size `element_sizes[k]` (pairs beyond the shorter list are ignored).
    pub fn new(id: u32, component_ids: Vec<u32>, element_sizes: Vec<usize>, mask: ComponentMask) -> (r: Self)
        ensures
            r.id == id,
            r.component_ids@ == component_ids@,
            r.chunks@ == Seq::<Chunk>::empty(),
            r.mask@ == mask@,
            component_ids@.len() == element_sizes@.len() ==> r.spec_template().len() == component_ids@.len(),
            forall|k: int|
                0 <= k < r.spec_template().len() ==> {
                    &&& k < component_ids@.len()
                    &&& k < element_sizes@.len()
                    &&& (#[trigger] r.spec_template()[k]).component_id == component_ids@[k]
                    &&& r.spec_template()[k].element_size == element_sizes@[k]
                    &&& r.spec_template()[k].data@ == Seq::<u8>::empty()
                },
            component_ids@.no_duplicates() ==> {
                &&& forall|c: u32| #[trigger] index_map_contents(r.column_lookup).dom().contains(c) <==> (exists|k: int| 0 <= k < r.spec_template().len() && component_ids@[k] == c)
                &&& forall|k: int| 0 <= k < r.spec_template().len() ==> index_map_contents(r.column_lookup)[#[trigger] component_ids@[k]] == k
            },
    {
        let mut lookup = index_map_new();
        let mut template_columns: Vec<Column> = Vec::new();
        let n = if component_ids.len() < element_sizes.len() {
            component_ids.len()
        } else {
            element_sizes.len()
        };
        let mut i: usize = 0;
        while i < n
            invariant
                n <= component_ids@.len(),
                n <= element_sizes@.len(),
                n == component_ids@.len() || n == element_sizes@.len(),
                i <= n,
                template_columns@.len() == i,
                forall|k: int|
                    0 <= k < i ==> {
                        &&& (#[trigger] template_columns@[k]).component_id == component_ids@[k]
                        &&& template_columns@[k].element_size == element_sizes@[k]
                        &&& template_columns@[k].data@ == Seq::<u8>::empty()
                    },
                component_ids@.no_duplicates() ==> {
                    &&& forall|c: u32| #[trigger] index_map_contents(lookup).dom().contains(c) <==> (exists|k: int| 0 <= k < i && component_ids@[k] == c)
                    &&& forall|k: int| 0 <= k < i ==> index_map_contents(lookup)[#[trigger] component_ids@[k]] == k
                },
            decreases n - i,
        {
            let cid = component_ids[i];
            let size = element_sizes[i];
            index_map_insert(&mut lookup, cid, i);
            template_columns.push(Column::new(cid, size));
            proof {
                if component_ids@.no_duplicates() {
                    assert forall|c: u32| #[trigger] index_map_contents(lookup).dom().contains(c) <==> (exists|k: int| 0 <= k < i + 1 && component_ids@[k] == c) by {
                        if c == cid {
                            assert(component_ids@[i as int] == c);
                        }
                    }
                    assert forall|k: int| 0 <= k < i + 1 implies index_map_contents(lookup)[#[trigger] component_ids@[k]] == k by {
                        if k < i {
                            assert(component_ids@[k] != component_ids@[i as int]);
                        }
                    }
                }
            }
            i = i + 1;
        }
        Self { id, component_ids, chunks: Vec::new(), column_lookup: lookup, mask, template_columns }
    }

    /// Index of a chunk with room: the last chunk, or a new one appended
    /// (built from the template columns) when there is none or it is full.
    pub fn get_or_create_chunk(&mut self) -> (r: usize)
        requires
            old(self).wf(),
            old(self).chunks@.len() < u32::MAX,
        ensures
            final(self).wf(),
            final(self).id == old(self).id,
            final(self).component_ids@ == old(self).component_ids@,
            final(self).column_lookup == old(self).column_lookup,
            final(self).mask@ == old(self).mask@,
            final(self).spec_template() == old(self).spec_template(),
            r + 1 == final(self).chunks@.len(),
            final(self).chunks@[r as int].entities@.len() < CHUNK_CAPACITY,
            if old(self).chunks@.len() == 0 || old(self).chunks@.last().entities@.len() >= CHUNK_CAPACITY {
                &&& final(self).chunks@.len() == old(self).chunks@.len() + 1
                &&& final(self).chunks@.drop_last() == old(self).chunks@
                &&& final(self).chunks@.last().entities@ == Seq::<Entity>::empty()
            } else {
                final(self).chunks@ == old(self).chunks@
            },
    {
        let n = self.chunks.len();
        if n == 0 || self.chunks[n - 1].is_full() {
            let ch = Chunk::new(self.template_columns.as_slice());
            let ghost before = self.chunks@;
            self.chunks.push(ch);
            proof {
                assert(self.chunks@.drop_last() =~= before);
                assert forall|j: int| 0 <= j < self.chunks@.len() implies chunk_fits(#[trigger] self.chunks@[j], self.spec_template()) by {
                    if j < before.len() {
                        assert(self.chunks@[j] == before[j]);
                    }
                }
            }
        }
        self.chunks.len() - 1
    }

    /// Chunk index and row for one more entity (the row is the chunk's
    /// current length; nothing is written yet).
    pub fn allocate_row(&mut self) -> (r: (u32, u32))
        requires
            old(self).wf(),
            old(self).chunks@.len() < u32::MAX,
        ensures
            final(self).wf(),
            final(self).id == old(self).id,
            final(self).component_ids@ == old(self).component_ids@,
            final(self).column_lookup == old(self).column_lookup,
            final(self).mask@ == old(self).mask@,
            final(self).spec_template() == old(self).spec_template(),
            r.0 + 1 == final(self).chunks@.len(),
            r.1 == final(self).chunks@[r.0 as int].entities@.len(),
            r.1 < CHUNK_CAPACITY,
            if old(self).chunks@.len() == 0 || old(self).chunks@.last().entities@.len() >= CHUNK_CAPACITY {
                &&& final(self).chunks@.len() == old(self).chunks@.len() + 1
                &&& final(self).chunks@.drop_last() == old(self).chunks@
                &&& final(self).chunks@.last().entities@ == Seq::<Entity>::empty()
            } else {
                final(self).chunks@ == old(self).chunks@
            },
    {
        let chunk_index = self.get_or_create_chunk();
        let row = self.chunks[chunk_index].len();
        (chunk_index as u32, row as u32)
    }

    /// Column index of component `component_id`, which must belong to this archetype.
    pub fn column_index(&self, component_id: u32) -> (r: usize)
        requires
            self.wf(),
            self.component_ids@.contains(component_id),
        ensures
            r == self.spec_column_of(component_id),
            r < self.component_ids@.len(),
            self.component_ids@[r as int] == component_id,
    {
        proof {
            let k = choose|k: int| 0 <= k < self.component_ids@.len() && self.component_ids@[k] == component_id;
            assert(index_map_contents(self.column_lookup)[self.component_ids@[k]] == k);
        }
        let r = index_map_get(&self.column_lookup, component_id);
        r.unwrap()
    }

    /// Whether `component_id` belongs to this archetype.
    pub fn has_component(&self, component_id: u32) -> (r: bool)
        requires
            self.wf(),
        ensures
            r == self.component_ids@.contains(component_id),
    {
        index_map_contains(&self.column_lookup, component_id)
    }

    /// Total number of entities over all chunks.
    pub fn total_entities(&self) -> (r: usize)
        requires
            chunk_entities_total(self.chunks@, self.chunks@.len() as int) <= usize::MAX,
        ensures
            r == chunk_entities_total(self.chunks@, self.chunks@.len() as int),
    {
        let n = self.chunks.len();
        let mut total: usize = 0;
        let mut i: usize = 0;
        while i < n
            invariant
                n == self.chunks@.len(),
                i <= n,
                total == chunk_entities_total(self.chunks@, i as int),
                chunk_entities_total(self.chunks@, n as int) <= usize::MAX,
            decreases n - i,
        {
            proof {
                lemma_chunk_entities_total_mono(self.chunks@, i as int + 1, n as int);
            }
            total = total + self.chunks[i].len();
            i = i + 1;
        }
        total
    }
}

/// Number of entities in the first `n` chunks.
pub open spec fn chunk_entities_total(chunks: Seq<Chunk>, n: int) -> nat
    decreases n,
{
    if n <= 0 {
        0
    } else {
        chunk_entities_total(chunks, n - 1) + chunks[n - 1].entities@.len()
    }
}

proof fn lemma_chunk_entities_total_mono(chunks: Seq<Chunk>, i: int, n: int)
    requires
        i <= n,
    ensures
        chunk_entities_total(chunks, i) <= chunk_entities_total(chunks, n),
    decreases n - i,
{
    if i < n {
        lemma_chunk_entities_total_mono(chunks, i, n - 1);
    }
}

} // verus!

verus! {

proof fn lemma_mul_le(k: nat, n: nat, es: nat)
    by (nonlinear_arith)
    requires
        k + 1 <= n,
    ensures
        k * es + es <= n * es,
        k * es + es == (k + 1) * es,
        (n - 1) * es + es == n * es,
{
}

proof fn lemma_div_exact(n: nat, es: nat)
    by (nonlinear_arith)
    requires
        es > 0,
    ensures
        (n * es) / es == n,
{
}

proof fn lemma_row_disjoint(k: nat, r: nat, es: nat)
    by (nonlinear_arith)
    requires
        k < r,
    ensures
        k * es + es <= r * es,
{
}

/// Row layout of a column holding exactly `n` rows, after a swap-remove of row `r`:
/// one row fewer, row `r` now holds the former last row, other rows are kept.
pub proof fn lemma_swap_remove_rows(d: Seq<u8>, es: nat, n: nat, r: nat)
    requires
        es > 0,
        d.len() == n * es,
        r < n,
    ensures
        spec_rows(d, es) == n,
        spec_swap_remove_rows(d, es, r).len() == (n - 1) * es,
        forall|k: nat|
            k + 1 < n && k != r ==> #[trigger] spec_row(spec_swap_remove_rows(d, es, r), es, k)
                == spec_row(d, es, k),
        r + 1 < n ==> spec_row(spec_swap_remove_rows(d, es, r), es, r) == spec_row(d, es, (n - 1) as nat),
{
    lemma_div_exact(n, es);
    lemma_mul_le(r, n, es);
    let new = spec_swap_remove_rows(d, es, r);
    if r + 1 < n {
        lemma_mul_le((n - 1) as nat, n, es);
        lemma_mul_le(r, (n - 1) as nat, es);
        let moved = d.subrange(0, (r * es) as int) + spec_row(d, es, (n - 1) as nat) + d.subrange(
            (r * es + es) as int,
            d.len() as int,
        );
        assert(moved.len() == d.len());
        assert forall|k: nat| k + 1 < n && k != r implies #[trigger] spec_row(new, es, k) == spec_row(d, es, k) by {
            lemma_mul_le(k, (n - 1) as nat, es);
            if k < r {
                lemma_row_disjoint(k, r, es);
            } else {
                lemma_row_disjoint(r, k, es);
            }
            assert(spec_row(new, es, k) =~= spec_row(d, es, k));
        }
        assert(spec_row(new, es, r) =~= spec_row(d, es, (n - 1) as nat));
    } else {
        assert forall|k: nat| k + 1 < n && k != r implies #[trigger] spec_row(new, es, k) == spec_row(d, es, k) by {
            lemma_mul_le(k, (n - 1) as nat, es);
            assert(spec_row(new, es, k) =~= spec_row(d, es, k));
        }
    }
}

/// Overwriting row `r` of a column of exactly `n` rows keeps its length and
/// the other rows, and makes `b` row `r`.
pub proof fn lemma_write_row(d: Seq<u8>, es: nat, n: nat, r: nat, b: Seq<u8>)
    requires
        d.len() == n * es,
        b.len() == es,
        r < n,
    ensures
        spec_write_row(d, es, r, b).len() == n * es,
        forall|k: nat| k < n && k != r ==> #[trigger] spec_row(spec_write_row(d, es, r, b), es, k) == spec_row(d, es, k),
        spec_row(spec_write_row(d, es, r, b), es, r) == b,
{
    lemma_mul_le(r, n, es);
    let w = spec_write_row(d, es, r, b);
    assert forall|k: nat| k < n && k != r implies #[trigger] spec_row(w, es, k) == spec_row(d, es, k) by {
        lemma_mul_le(k, n, es);
        if k < r {
            lemma_row_disjoint(k, r, es);
        } else {
            lemma_row_disjoint(r, k, es);
        }
        assert(spec_row(w, es, k) =~= spec_row(d, es, k));
    }
    assert(spec_row(w, es, r) =~= b);
}

/// Appending one row to a column of exactly `n` rows keeps the old rows and
/// makes the new bytes row `n`.
pub proof fn lemma_push_row(d: Seq<u8>, es: nat, n: nat, b: Seq<u8>)
    requires
        d.len() == n * es,
        b.len() == es,
    ensures
        (d + b).len() == (n + 1) * es,
        forall|k: nat| k < n ==> #[trigger] spec_row(d + b, es, k) == spec_row(d, es, k),
        spec_row(d + b, es, n) == b,
{
    lemma_mul_le(n, n + 1, es);
    assert forall|k: nat| k < n implies #[trigger] spec_row(d + b, es, k) == spec_row(d, es, k) by {
        lemma_mul_le(k, n, es);
        assert(spec_row(d + b, es, k) =~= spec_row(d, es, k));
    }
    assert(spec_row(d + b, es, n) =~= b);
}

} // verus!

verus! {

/// Row `row` of a column holding exactly `n` rows of `es` bytes lies within its data.
pub proof fn lemma_row_in_column(len: nat, es: nat, n: nat, row: nat)
    requires
        len == n * es,
        row < n,
    ensures
        (row + 1) * es <= len,
        spec_row_len(es, row),
{
    lemma_mul_le(row, n, es);
}

/// A row of `es` bytes starting at `row * es` spans exactly `es` bytes.
pub open spec fn spec_row_len(es: nat, row: nat) -> bool {
    row * es + es == (row + 1) * es
}

} // verus!
