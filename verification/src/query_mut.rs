use vstd::prelude::*;
use vstd::bytes::{spec_u32_from_le_bytes, spec_u32_to_le_bytes, u32_from_le_bytes, u32_to_le_bytes};
use crate::entity::Entity;

verus! {

/// Bytes `s` with the `b.len()` bytes from `off` on replaced by `b`.
pub open spec fn spec_patch(s: Seq<u8>, off: int, b: Seq<u8>) -> Seq<u8> {
    s.subrange(0, off) + b + s.subrange(off + b.len(), s.len() as int)
}

/// Mutable view of one entity's data across the queried components.
///
/// Handed to the callback of `World::query_each_mut`; query column `k` holds
/// this entity's bytes of the `k`-th queried component, and what the callback
/// leaves there is written back to storage. Byte offsets are little-endian
/// packed field offsets, as for `QueryRow`.
pub struct QueryRowMut {
    pub(crate) columns: Vec<Vec<u8>>,
    /// The entity this row belongs to.
    pub entity: Entity,
    /// Row within the current chunk.
    pub row: usize,
}

impl QueryRowMut {
    /// The bytes of each query column.
    pub closed spec fn spec_columns(&self) -> Seq<Seq<u8>> {
        self.columns@.map_values(|v: Vec<u8>| v@)
    }

    /// The entity this row belongs to.
    pub closed spec fn spec_entity(&self) -> Entity {
        self.entity
    }

    /// Row within the current chunk.
    pub closed spec fn spec_row(&self) -> usize {
        self.row
    }

    /// A row holding `columns` for `entity` at `row`.
    pub(crate) fn new(columns: Vec<Vec<u8>>, entity: Entity, row: usize) -> (r: QueryRowMut)
        ensures
            r.spec_columns() == columns@.map_values(|v: Vec<u8>| v@),
            r.spec_entity() == entity,
            r.spec_row() == row,
    {
        QueryRowMut { columns, entity, row }
    }

    /// Number of query columns.
    pub(crate) fn column_count(&self) -> (r: usize)
        ensures
            r == self.spec_columns().len(),
    {
        self.columns.len()
    }

    /// The bytes of query column `col_idx`.
    pub(crate) fn column_bytes(&self, col_idx: usize) -> (r: &[u8])
        requires
            col_idx < self.spec_columns().len(),
        ensures
            r@ == self.spec_columns()[col_idx as int],
    {
        self.columns[col_idx].as_slice()
    }

    /// The `u32` at `byte_offset` within query column `col_idx`.
    pub fn read_u32(&self, col_idx: usize, byte_offset: usize) -> (r: u32)
        requires
            col_idx < self.spec_columns().len(),
            byte_offset + 4 <= self.spec_columns()[col_idx as int].len(),
        ensures
            r == spec_u32_from_le_bytes(
                self.spec_columns()[col_idx as int].subrange(byte_offset as int, byte_offset + 4),
            ),
    {
        let b = self.columns[col_idx].as_slice();
        let blen = b.len();
        u32_from_le_bytes(&b[byte_offset..byte_offset + 4])
    }

    /// The bit pattern of the `f32` at `byte_offset` within query column `col_idx`.
    pub fn read_f32(&self, col_idx: usize, byte_offset: usize) -> (r: u32)
        requires
            col_idx < self.spec_columns().len(),
            byte_offset + 4 <= self.spec_columns()[col_idx as int].len(),
        ensures
            r == spec_u32_from_le_bytes(
                self.spec_columns()[col_idx as int].subrange(byte_offset as int, byte_offset + 4),
            ),
    {
        self.read_u32(col_idx, byte_offset)
    }

    /// The `i32` at `byte_offset` within query column `col_idx`.
    pub fn read_i32(&self, col_idx: usize, byte_offset: usize) -> (r: i32)
        requires
            col_idx < self.spec_columns().len(),
            byte_offset + 4 <= self.spec_columns()[col_idx as int].len(),
        ensures
            r == spec_u32_from_le_bytes(
                self.spec_columns()[col_idx as int].subrange(byte_offset as int, byte_offset + 4),
            ) as i32,
    {
        self.read_u32(col_idx, byte_offset) as i32
    }

    /// The `bool` at `byte_offset` within query column `col_idx` (nonzero byte).
    pub fn read_bool(&self, col_idx: usize, byte_offset: usize) -> (r: bool)
        requires
            col_idx < self.spec_columns().len(),
            byte_offset < self.spec_columns()[col_idx as int].len(),
        ensures
            r == (self.spec_columns()[col_idx as int][byte_offset as int] != 0),
    {
        self.columns[col_idx][byte_offset] != 0
    }

    /// Overwrite the bytes from `byte_offset` on in query column `col_idx` with `b`.
    fn patch(&mut self, col_idx: usize, byte_offset: usize, b: &[u8])
        requires
            col_idx < old(self).spec_columns().len(),
            byte_offset + b@.len() <= old(self).spec_columns()[col_idx as int].len(),
        ensures
            final(self).spec_columns() == old(self).spec_columns().update(
                col_idx as int,
                spec_patch(old(self).spec_columns()[col_idx as int], byte_offset as int, b@),
            ),
            final(self).spec_entity() == old(self).spec_entity(),
            final(self).spec_row() == old(self).spec_row(),
    {
        let ghost c0 = self.columns@;
        let ghost s0 = self.columns@[col_idx as int]@;
        let clen = self.columns[col_idx].len();
        let mut i: usize = 0;
        while i < b.len()
            invariant
                i <= b@.len(),
                col_idx < c0.len(),
                self.columns@.len() == c0.len(),
                self.entity == old(self).entity,
                self.row == old(self).row,
                forall|j: int| 0 <= j < c0.len() && j != col_idx ==> #[trigger] self.columns@[j] == c0[j],
                clen == s0.len(),
                self.columns@[col_idx as int]@.len() == s0.len(),
                byte_offset + b@.len() <= s0.len(),
                forall|p: int|
                    0 <= p < s0.len() ==> #[trigger] self.columns@[col_idx as int]@[p] == if byte_offset <= p < byte_offset + i {
                        b@[p - byte_offset]
                    } else {
                        s0[p]
                    },
            decreases b@.len() - i,
        {
            self.columns[col_idx].set(byte_offset + i, b[i]);
            i = i + 1;
        }
        proof {
            assert(self.columns@[col_idx as int]@ =~= spec_patch(s0, byte_offset as int, b@));
            assert(self.spec_columns() =~= c0.map_values(|v: Vec<u8>| v@).update(
                col_idx as int,
                spec_patch(s0, byte_offset as int, b@),
            ));
        }
    }

    /// Write a `u32` at `byte_offset` within query column `col_idx`.
    pub fn write_u32(&mut self, col_idx: usize, byte_offset: usize, value: u32)
        requires
            col_idx < old(self).spec_columns().len(),
            byte_offset + 4 <= old(self).spec_columns()[col_idx as int].len(),
        ensures
            final(self).spec_columns() == old(self).spec_columns().update(
                col_idx as int,
                spec_patch(old(self).spec_columns()[col_idx as int], byte_offset as int, spec_u32_to_le_bytes(value)),
            ),
            final(self).spec_entity() == old(self).spec_entity(),
            final(self).spec_row() == old(self).spec_row(),
    {
        let b = u32_to_le_bytes(value);
        self.patch(col_idx, byte_offset, b.as_slice());
    }

    /// Write an `f32`, given by its bit pattern, at `byte_offset` within query column `col_idx`.
    pub fn write_f32(&mut self, col_idx: usize, byte_offset: usize, value: u32)
        requires
            col_idx < old(self).spec_columns().len(),
            byte_offset + 4 <= old(self).spec_columns()[col_idx as int].len(),
        ensures
            final(self).spec_columns() == old(self).spec_columns().update(
                col_idx as int,
                spec_patch(old(self).spec_columns()[col_idx as int], byte_offset as int, spec_u32_to_le_bytes(value)),
            ),
            final(self).spec_entity() == old(self).spec_entity(),
            final(self).spec_row() == old(self).spec_row(),
    {
        self.write_u32(col_idx, byte_offset, value)
    }

    /// Write an `i32` at `byte_offset` within query column `col_idx`.
    pub fn write_i32(&mut self, col_idx: usize, byte_offset: usize, value: i32)
        requires
            col_idx < old(self).spec_columns().len(),
            byte_offset + 4 <= old(self).spec_columns()[col_idx as int].len(),
        ensures
            final(self).spec_columns() == old(self).spec_columns().update(
                col_idx as int,
                spec_patch(
                    old(self).spec_columns()[col_idx as int],
                    byte_offset as int,
                    spec_u32_to_le_bytes(value as u32),
                ),
            ),
            final(self).spec_entity() == old(self).spec_entity(),
            final(self).spec_row() == old(self).spec_row(),
    {
        self.write_u32(col_idx, byte_offset, value as u32)
    }

    /// Write a `bool` (as byte 1 or 0) at `byte_offset` within query column `col_idx`.
    pub fn write_bool(&mut self, col_idx: usize, byte_offset: usize, value: bool)
        requires
            col_idx < old(self).spec_columns().len(),
            byte_offset < old(self).spec_columns()[col_idx as int].len(),
        ensures
            final(self).spec_columns() == old(self).spec_columns().update(
                col_idx as int,
                old(self).spec_columns()[col_idx as int].update(byte_offset as int, if value { 1u8 } else { 0u8 }),
            ),
            final(self).spec_entity() == old(self).spec_entity(),
            final(self).spec_row() == old(self).spec_row(),
    {
        let b: Vec<u8> = if value {
            vec![1u8]
        } else {
            vec![0u8]
        };
        let ghost s0 = self.spec_columns()[col_idx as int];
        self.patch(col_idx, byte_offset, b.as_slice());
        proof {
            assert(spec_patch(s0, byte_offset as int, b@) =~= s0.update(byte_offset as int, if value { 1u8 } else { 0u8 }));
        }
    }
}

} // verus!
