use vstd::prelude::*;
use vstd::bytes::{spec_u32_from_le_bytes, u32_from_le_bytes};
use crate::archetype::{spec_row, Column};
use crate::entity::Entity;
use crate::query_view::ColumnView;

verus! {

/// One chunk's worth of query results: its row count and one column view per
/// queried component (in query order).
pub struct QueryChunk<'a> {
    pub rows: usize,
    pub columns: Vec<ColumnView<'a>>,
}

impl<'a> QueryChunk<'a> {
    /// The view for the `index`-th queried component.
    pub fn column(&self, index: usize) -> (r: &ColumnView<'a>)
        requires
            index < self.columns@.len(),
        ensures
            *r == self.columns@[index as int],
    {
        &self.columns[index]
    }
}

/// Sum of the row counts of the first `n` chunks.
pub open spec fn chunks_rows(chunks: Seq<QueryChunk>, n: int) -> nat
    decreases n,
{
    if n <= 0 {
        0
    } else {
        chunks_rows(chunks, n - 1) + chunks[n - 1].rows as nat
    }
}

/// `(chunk index, row)` for every row of the first `n` chunks, chunk by chunk.
pub open spec fn row_positions(chunks: Seq<QueryChunk>, n: int) -> Seq<(int, int)>
    decreases n,
{
    if n <= 0 {
        Seq::empty()
    } else {
        row_positions(chunks, n - 1) + Seq::new(
            chunks[n - 1].rows as nat,
            |r: int| (n - 1, r),
        )
    }
}

proof fn lemma_row_positions_len(chunks: Seq<QueryChunk>, n: int)
    ensures
        row_positions(chunks, n).len() == chunks_rows(chunks, n),
    decreases n,
{
    if n > 0 {
        lemma_row_positions_len(chunks, n - 1);
    }
}

proof fn lemma_chunks_rows_mono(chunks: Seq<QueryChunk>, i: int, n: int)
    requires
        i <= n,
    ensures
        chunks_rows(chunks, i) <= chunks_rows(chunks, n),
    decreases n - i,
{
    if i < n {
        lemma_chunks_rows_mono(chunks, i, n - 1);
    }
}

/// Full query result across all matching archetypes/chunks.
pub struct QueryResult<'a> {
    pub chunks: Vec<QueryChunk<'a>>,
}

impl<'a> QueryResult<'a> {
    pub open spec fn spec_total_rows(&self) -> nat {
        chunks_rows(self.chunks@, self.chunks@.len() as int)
    }

    /// `(chunk index, row)` of every matching row, in iteration order.
    pub open spec fn spec_positions(&self) -> Seq<(int, int)> {
        row_positions(self.chunks@, self.chunks@.len() as int)
    }

    /// Total number of rows over all chunks.
    pub fn total_rows(&self) -> (r: usize)
        requires
            self.spec_total_rows() <= usize::MAX,
        ensures
            r == self.spec_total_rows(),
    {
        let n = self.chunks.len();
        let mut total: usize = 0;
        let mut i: usize = 0;
        while i < n
            invariant
                n == self.chunks@.len(),
                i <= n,
                total == chunks_rows(self.chunks@, i as int),
                chunks_rows(self.chunks@, n as int) <= usize::MAX,
            decreases n - i,
        {
            proof {
                lemma_chunks_rows_mono(self.chunks@, i as int + 1, n as int);
            }
            total = total + self.chunks[i].rows;
            i = i + 1;
        }
        total
    }

    pub fn is_empty(&self) -> (r: bool)
        requires
            self.spec_total_rows() <= usize::MAX,
        ensures
            r == (self.spec_total_rows() == 0),
    {
        self.total_rows() == 0
    }

    /// Every row as `(chunk, row index within the chunk)`, chunk by chunk.
    pub fn iter_rows(&self) -> (r: Vec<(&QueryChunk<'a>, usize)>)
        ensures
            r@.len() == self.spec_positions().len(),
            r@.len() == self.spec_total_rows(),
            forall|k: int|
                0 <= k < r@.len() ==> {
                    &&& *(#[trigger] r@[k]).0 == self.chunks@[self.spec_positions()[k].0]
                    &&& r@[k].1 == self.spec_positions()[k].1
                },
    {
        let n = self.chunks.len();
        let mut out: Vec<(&QueryChunk<'a>, usize)> = Vec::new();
        let mut i: usize = 0;
        while i < n
            invariant
                n == self.chunks@.len(),
                i <= n,
                out@.len() == row_positions(self.chunks@, i as int).len(),
                forall|k: int|
                    0 <= k < out@.len() ==> {
                        &&& *(#[trigger] out@[k]).0 == self.chunks@[row_positions(self.chunks@, i as int)[k].0]
                        &&& out@[k].1 == row_positions(self.chunks@, i as int)[k].1
                    },
            decreases n - i,
        {
            let chunk = &self.chunks[i];
            let ghost before = out@;
            let ghost prev = row_positions(self.chunks@, i as int);
            let mut row: usize = 0;
            while row < chunk.rows
                invariant
                    n == self.chunks@.len(),
                    i < n,
                    *chunk == self.chunks@[i as int],
                    row <= chunk.rows,
                    before.len() == prev.len(),
                    out@.len() == before.len() + row,
                    forall|k: int| 0 <= k < before.len() ==> #[trigger] out@[k] == before[k],
                    forall|k: int|
                        0 <= k < before.len() ==> {
                            &&& *(#[trigger] before[k]).0 == self.chunks@[prev[k].0]
                            &&& before[k].1 == prev[k].1
                        },
                    forall|k: int|
                        before.len() <= k < out@.len() ==> {
                            &&& *(#[trigger] out@[k]).0 == self.chunks@[i as int]
                            &&& out@[k].1 == k - before.len()
                        },
                decreases chunk.rows - row,
            {
                out.push((chunk, row));
                row = row + 1;
            }
            i = i + 1;
            proof {
                let cur = row_positions(self.chunks@, i as int);
                assert(cur == prev + Seq::new(self.chunks@[i - 1].rows as nat, |r: int| (i - 1, r)));
                assert forall|k: int| 0 <= k < out@.len() implies {
                    &&& *(#[trigger] out@[k]).0 == self.chunks@[cur[k].0]
                    &&& out@[k].1 == cur[k].1
                } by {
                    if k < before.len() {
                        assert(out@[k] == before[k]);
                    }
                }
            }
        }
        proof {
            lemma_row_positions_len(self.chunks@, self.chunks@.len() as int);
        }
        out
    }

    /// Same as `iter_rows`.
    pub fn iter(&self) -> (r: Vec<(&QueryChunk<'a>, usize)>)
        ensures
            r@.len() == self.spec_positions().len(),
            r@.len() == self.spec_total_rows(),
            forall|k: int|
                0 <= k < r@.len() ==> {
                    &&& *(#[trigger] r@[k]).0 == self.chunks@[self.spec_positions()[k].0]
                    &&& r@[k].1 == self.spec_positions()[k].1
                },
    {
        self.iter_rows()
    }

    /// The first matching `(chunk, row)`, or `None` if nothing matches.
    pub fn first(&self) -> (r: Option<(&QueryChunk<'a>, usize)>)
        ensures
            self.spec_positions().len() == 0 ==> r.is_none(),
            self.spec_positions().len() > 0 ==> (r matches Some(p) && *p.0 == self.chunks@[self.spec_positions()[0].0]
                && p.1 == self.spec_positions()[0].1),
            r is Some <==> self.spec_total_rows() > 0,
    {
        let all = self.iter_rows();
        if all.len() == 0 {
            None
        } else {
            Some(all[0])
        }
    }

    /// The single matching `(chunk, row)`, or `None` if zero or several rows match.
    pub fn single(&self) -> (r: Option<(&QueryChunk<'a>, usize)>)
        requires
            self.spec_total_rows() <= usize::MAX,
        ensures
            self.spec_total_rows() != 1 ==> r.is_none(),
            self.spec_total_rows() == 1 ==> (r matches Some(p) && *p.0 == self.chunks@[self.spec_positions()[0].0]
                && p.1 == self.spec_positions()[0].1),
    {
        if self.total_rows() != 1 {
            return None;
        }
        proof {
            lemma_row_positions_len(self.chunks@, self.chunks@.len() as int);
        }
        self.first()
    }

    /// Call `f(chunk, row)` for every matching row, chunk by chunk.
    pub fn for_each<F>(&self, mut f: F)
        where
            F: FnMut(&QueryChunk<'a>, usize),
        requires
            forall|c: &QueryChunk<'a>, r: usize| #[trigger] call_requires(f, (c, r)),
        ensures
            forall|k: int|
                0 <= k < self.spec_positions().len() ==> #[trigger] call_ensures(
                    f,
                    (&self.chunks@[self.spec_positions()[k].0], self.spec_positions()[k].1 as usize),
                    (),
                ),
    {
        let ghost f0 = f;
        let all = self.iter_rows();
        let mut k: usize = 0;
        while k < all.len()
            invariant
                k <= all@.len(),
                f == f0,
                all@.len() == self.spec_positions().len(),
                forall|j: int|
                    0 <= j < all@.len() ==> {
                        &&& *(#[trigger] all@[j]).0 == self.chunks@[self.spec_positions()[j].0]
                        &&& all@[j].1 == self.spec_positions()[j].1
                    },
                forall|c: &QueryChunk<'a>, r: usize| #[trigger] call_requires(f, (c, r)),
                forall|j: int|
                    0 <= j < k ==> #[trigger] call_ensures(
                        f0,
                        (&self.chunks@[self.spec_positions()[j].0], self.spec_positions()[j].1 as usize),
                        (),
                    ),
            decreases all@.len() - k,
        {
            let (c, r) = all[k];
            f(c, r);
            proof {
                assert(all@[k as int].0 == c);
            }
            k = k + 1;
        }
    }

    /// Call `f(columns, row)` for every matching row, where `columns[i]` is the
    /// view of the `i`-th queried component.
    pub fn for_each_row<F>(&self, mut f: F)
        where
            F: FnMut(&[ColumnView<'a>], usize),
        requires
            forall|c: &[ColumnView<'a>], r: usize| #[trigger] call_requires(f, (c, r)),
        ensures
            forall|k: int|
                0 <= k < self.spec_positions().len() ==> #[trigger] called_on_columns(
                    f,
                    self.chunks@[self.spec_positions()[k].0].columns@,
                    self.spec_positions()[k].1 as usize,
                ),
    {
        let ghost f0 = f;
        let all = self.iter_rows();
        let mut k: usize = 0;
        while k < all.len()
            invariant
                k <= all@.len(),
                f == f0,
                all@.len() == self.spec_positions().len(),
                forall|j: int|
                    0 <= j < all@.len() ==> {
                        &&& *(#[trigger] all@[j]).0 == self.chunks@[self.spec_positions()[j].0]
                        &&& all@[j].1 == self.spec_positions()[j].1
                    },
                forall|c: &[ColumnView<'a>], r: usize| #[trigger] call_requires(f, (c, r)),
                forall|j: int|
                    0 <= j < k ==> #[trigger] called_on_columns(
                        f0,
                        self.chunks@[self.spec_positions()[j].0].columns@,
                        self.spec_positions()[j].1 as usize,
                    ),
            decreases all@.len() - k,
        {
            let (c, r) = all[k];
            let cols = c.columns.as_slice();
            f(cols, r);
            proof {
                assert(all@[k as int].0 == c);
                assert(call_ensures(f0, (cols, r), ()));
                assert(called_on_columns(f0, c.columns@, r));
            }
            k = k + 1;
        }
    }
}

/// `f` was called with a slice of column views equal to `cols` and the row
/// index `row`.
pub open spec fn called_on_columns<'a, F: FnMut(&[ColumnView<'a>], usize)>(f: F, cols: Seq<ColumnView<'a>>, row: usize) -> bool {
    exists|cs: &[ColumnView<'a>]| #![trigger call_ensures(f, (cs, row), ())] cs@ == cols && call_ensures(f, (cs, row), ())
}

/// Read-only view of one entity's data across the queried components.
///
/// Column indices correspond to the order of the component ids given to
/// `World::query_each`; byte offsets are little-endian packed field offsets.
pub struct QueryRow<'a> {
    pub(crate) columns: &'a [Column],
    pub(crate) col_indices: &'a [usize],
    /// The entity this row belongs to.
    pub entity: Entity,
    /// Row within the current chunk.
    pub row: usize,
}

impl<'a> QueryRow<'a> {
    /// A row of `columns` whose query column `k` is storage column `col_indices[k]`.
    pub(crate) fn new(columns: &'a [Column], col_indices: &'a [usize], entity: Entity, row: usize) -> (r: QueryRow<'a>)
        ensures
            r.entity == entity,
            r.spec_entity() == entity,
            r.row == row,
            forall|k: int|
                0 <= k < col_indices@.len() && col_indices@[k] < columns@.len() && (row + 1) * columns@[col_indices@[k] as int].element_size
                    <= columns@[col_indices@[k] as int].data@.len() ==> {
                    &&& #[trigger] r.spec_has_column(k)
                    &&& r.spec_bytes(k) == spec_row(
                        columns@[col_indices@[k] as int].data@,
                        columns@[col_indices@[k] as int].element_size as nat,
                        row as nat,
                    )
                },
    {
        QueryRow { columns, col_indices, entity, row }
    }

    /// The entity this row belongs to.
    pub closed spec fn spec_entity(&self) -> Entity {
        self.entity
    }

    /// Every query column below `n` exists and holds this row.
    pub open spec fn spec_columns_ok(&self, n: int) -> bool {
        forall|k: int| 0 <= k < n ==> #[trigger] self.spec_has_column(k)
    }

    /// Storage column of query column `col_idx`.
    pub closed spec fn spec_column(&self, col_idx: int) -> Column {
        self.columns@[self.col_indices@[col_idx] as int]
    }

    /// Query column `col_idx` exists and holds row `row`.
    pub closed spec fn spec_has_column(&self, col_idx: int) -> bool {
        &&& 0 <= col_idx < self.col_indices@.len()
        &&& self.col_indices@[col_idx] < self.columns@.len()
        &&& (self.row + 1) * self.spec_column(col_idx).element_size <= self.spec_column(
            col_idx,
        ).data@.len()
    }

    /// Bytes of this row in query column `col_idx`.
    pub closed spec fn spec_bytes(&self, col_idx: int) -> Seq<u8> {
        spec_row(
            self.spec_column(col_idx).data@,
            self.spec_column(col_idx).element_size as nat,
            self.row as nat,
        )
    }

    /// Raw bytes of this row in query column `col_idx`.
    pub fn bytes(&self, col_idx: usize) -> (r: &[u8])
        requires
            self.spec_has_column(col_idx as int),
        ensures
            r@ == self.spec_bytes(col_idx as int),
    {
        self.columns[self.col_indices[col_idx]].row(self.row)
    }

    /// The bit pattern of the `f32` at `byte_offset` within query column `col_idx`.
    pub fn read_f32(&self, col_idx: usize, byte_offset: usize) -> (r: u32)
        requires
            self.spec_has_column(col_idx as int),
            byte_offset + 4 <= self.spec_bytes(col_idx as int).len(),
        ensures
            r == spec_u32_from_le_bytes(
                self.spec_bytes(col_idx as int).subrange(byte_offset as int, byte_offset + 4),
            ),
    {
        self.read_u32(col_idx, byte_offset)
    }

    /// The `u32` at `byte_offset` within query column `col_idx`.
    pub fn read_u32(&self, col_idx: usize, byte_offset: usize) -> (r: u32)
        requires
            self.spec_has_column(col_idx as int),
            byte_offset + 4 <= self.spec_bytes(col_idx as int).len(),
        ensures
            r == spec_u32_from_le_bytes(
                self.spec_bytes(col_idx as int).subrange(byte_offset as int, byte_offset + 4),
            ),
    {
        let b = self.bytes(col_idx);
        let blen = b.len();
        u32_from_le_bytes(&b[byte_offset..byte_offset + 4])
    }

    /// The `i32` at `byte_offset` within query column `col_idx`.
    pub fn read_i32(&self, col_idx: usize, byte_offset: usize) -> (r: i32)
        requires
            self.spec_has_column(col_idx as int),
            byte_offset + 4 <= self.spec_bytes(col_idx as int).len(),
        ensures
            r == spec_u32_from_le_bytes(
                self.spec_bytes(col_idx as int).subrange(byte_offset as int, byte_offset + 4),
            ) as i32,
    {
        self.read_u32(col_idx, byte_offset) as i32
    }

    /// The `bool` at `byte_offset` within query column `col_idx` (nonzero byte).
    pub fn read_bool(&self, col_idx: usize, byte_offset: usize) -> (r: bool)
        requires
            self.spec_has_column(col_idx as int),
            byte_offset < self.spec_bytes(col_idx as int).len(),
        ensures
            r == (self.spec_bytes(col_idx as int)[byte_offset as int] != 0),
    {
        self.bytes(col_idx)[byte_offset] != 0
    }
}

} // verus!
