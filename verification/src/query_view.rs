use vstd::prelude::*;
use vstd::bytes::{spec_u32_from_le_bytes, u32_from_le_bytes};
use crate::archetype::{spec_row, spec_rows};

verus! {

/// Read-only view into one column's bytes.
pub struct ColumnView<'a> {
    pub data: &'a [u8],
    pub element_size: usize,
}

proof fn lemma_view_row_bounds(index: nat, es: nat, len: nat)
    by (nonlinear_arith)
    requires
        (index + 1) * es <= len,
    ensures
        index * es + es == (index + 1) * es,
        index * es <= len,
{
}

impl<'a> ColumnView<'a> {
    /// Bytes of row `index`.
    pub fn row(&self, index: usize) -> (r: &'a [u8])
        requires
            (index + 1) * self.element_size <= self.data@.len(),
        ensures
            r@ == spec_row(self.data@, self.element_size as nat, index as nat),
    {
        let dlen = self.data.len();
        proof {
            lemma_view_row_bounds(index as nat, self.element_size as nat, dlen as nat);
        }
        let start = index * self.element_size;
        let d: &'a [u8] = self.data;
        &d[start..start + self.element_size]
    }

    /// Number of whole rows (0 for zero-sized elements).
    pub fn len(&self) -> (r: usize)
        ensures
            r == spec_rows(self.data@, self.element_size as nat),
    {
        if self.element_size == 0 {
            0
        } else {
            self.data.len() / self.element_size
        }
    }

    pub fn is_empty(&self) -> (r: bool)
        ensures
            r == (spec_rows(self.data@, self.element_size as nat) == 0),
    {
        self.len() == 0
    }

    /// The bit pattern of the `f32` stored at `byte_offset` within row `row`.
    pub fn read_f32_at(&self, row: usize, byte_offset: usize) -> (r: u32)
        requires
            row * self.element_size + byte_offset + 4 <= self.data@.len(),
        ensures
            r == spec_u32_from_le_bytes(
                self.data@.subrange(
                    row * self.element_size + byte_offset,
                    row * self.element_size + byte_offset + 4,
                ),
            ),
    {
        let dlen = self.data.len();
        let start = row * self.element_size + byte_offset;
        u32_from_le_bytes(&self.data[start..start + 4])
    }

    /// All rows, in order, as byte slices.
    pub fn iter(&self) -> (r: Vec<&'a [u8]>)
        ensures
            r@.len() == spec_rows(self.data@, self.element_size as nat),
            forall|i: int|
                0 <= i < r@.len() ==> (#[trigger] r@[i])@ == spec_row(
                    self.data@,
                    self.element_size as nat,
                    i as nat,
                ),
    {
        let n = self.len();
        let mut out: Vec<&'a [u8]> = Vec::new();
        let mut i: usize = 0;
        while i < n
            invariant
                n == spec_rows(self.data@, self.element_size as nat),
                i <= n,
                out@.len() == i,
                forall|k: int|
                    0 <= k < i ==> (#[trigger] out@[k])@ == spec_row(
                        self.data@,
                        self.element_size as nat,
                        k as nat,
                    ),
            decreases n - i,
        {
            proof {
                lemma_rows_fit(self.data@.len(), self.element_size as nat, i as nat, n as nat);
            }
            out.push(self.row(i));
            i = i + 1;
        }
        out
    }
}

/// Row `i` of `n = len / es` whole rows lies within the bytes.
pub proof fn lemma_rows_fit(len: nat, es: nat, i: nat, n: nat)
    requires
        es > 0 || n == 0,
        n == spec_rows_nat(len, es),
        i < n,
    ensures
        (i + 1) * es <= len,
{
    if es > 0 {
        vstd::arithmetic::div_mod::lemma_fundamental_div_mod(len as int, es as int);
        lemma_rows_fit_arith(len, es, i, n);
    }
}

pub open spec fn spec_rows_nat(len: nat, es: nat) -> nat {
    if es == 0 {
        0
    } else {
        len / es
    }
}

proof fn lemma_rows_fit_arith(len: nat, es: nat, i: nat, n: nat)
    by (nonlinear_arith)
    requires
        es > 0,
        n == len / es,
        len == es * (len / es) + len % es,
        i < n,
    ensures
        (i + 1) * es <= len,
{
}

} // verus!
