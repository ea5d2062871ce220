use vstd::prelude::*;
use vstd::bytes::{spec_u32_from_le_bytes, spec_u32_to_le_bytes, u32_from_le_bytes, u32_to_le_bytes};

verus! {

/// The little-endian `u32` of the 4 bytes of `data` at `off`.
pub open spec fn word_at(data: Seq<u8>, off: int) -> u32 {
    spec_u32_from_le_bytes(data.subrange(off, off + 4))
}

/// Read-only view of a two-`f32` component (position, velocity, ...); the
/// accessors give the fields' bit patterns.
pub struct F32x2View<'a> {
    pub data: &'a [u8],
}

impl<'a> F32x2View<'a> {
    /// Bit pattern of the first field.
    pub fn x(&self) -> (r: u32)
        requires
            self.data@.len() >= 4,
        ensures
            r == word_at(self.data@, 0),
    {
        u32_from_le_bytes(&self.data[0..4])
    }

    /// Bit pattern of the second field.
    pub fn y(&self) -> (r: u32)
        requires
            self.data@.len() >= 8,
        ensures
            r == word_at(self.data@, 4),
    {
        u32_from_le_bytes(&self.data[4..8])
    }
}

/// Mutable view of a two-`f32` component; the accessors give and take the
/// fields' bit patterns.
pub struct F32x2ViewMut<'a> {
    pub data: &'a mut [u8],
}

impl<'a> F32x2ViewMut<'a> {
    /// Bit pattern of the first field.
    pub fn x(&self) -> (r: u32)
        requires
            old(self.data)@.len() >= 4,
        ensures
            r == word_at(old(self.data)@, 0),
    {
        let d: &[u8] = &*self.data;
        u32_from_le_bytes(&d[0..4])
    }

    /// Bit pattern of the second field.
    pub fn y(&self) -> (r: u32)
        requires
            old(self.data)@.len() >= 8,
        ensures
            r == word_at(old(self.data)@, 4),
    {
        let d: &[u8] = &*self.data;
        u32_from_le_bytes(&d[4..8])
    }

    /// Write the 4 bytes at `off`.
    fn put(&mut self, off: usize, v: u32)
        requires
            off + 4 <= old(self).data@.len(),
        ensures
            final(self).data@ == old(self).data@.subrange(0, off as int) + spec_u32_to_le_bytes(v) + old(self).data@.subrange(
                off + 4,
                old(self).data@.len() as int,
            ),
    {
        let b = u32_to_le_bytes(v);
        let ghost d0 = self.data@;
        let dlen = self.data.len();
        let mut i: usize = 0;
        while i < 4
            invariant
                i <= 4,
                dlen == d0.len(),
                b@.len() == 4,
                self.data@.len() == d0.len(),
                off + 4 <= d0.len(),
                forall|p: int|
                    0 <= p < d0.len() ==> #[trigger] self.data@[p] == if off <= p < off + i {
                        b@[p - off]
                    } else {
                        d0[p]
                    },
            decreases 4 - i,
        {
            self.data[off + i] = b[i];
            i = i + 1;
        }
        assert(self.data@ =~= d0.subrange(0, off as int) + spec_u32_to_le_bytes(v) + d0.subrange(off + 4, d0.len() as int));
    }

    /// Set the first field from its bit pattern.
    pub fn set_x(&mut self, v: u32)
        requires
            old(self).data@.len() >= 4,
        ensures
            final(self).data@ == spec_u32_to_le_bytes(v) + old(self).data@.subrange(4, old(self).data@.len() as int),
    {
        self.put(0, v);
        proof {
            assert(old(self).data@.subrange(0, 0) + spec_u32_to_le_bytes(v) =~= spec_u32_to_le_bytes(v));
        }
    }

    /// Set the second field from its bit pattern.
    pub fn set_y(&mut self, v: u32)
        requires
            old(self).data@.len() >= 8,
        ensures
            final(self).data@ == old(self).data@.subrange(0, 4) + spec_u32_to_le_bytes(v) + old(self).data@.subrange(
                8,
                old(self).data@.len() as int,
            ),
    {
        self.put(4, v);
    }
}

/// Read-only view of a three-`f32` component; the accessors give the
/// fields' bit patterns.
pub struct F32x3View<'a> {
    pub data: &'a [u8],
}

impl<'a> F32x3View<'a> {
    /// Bit pattern of the first field.
    pub fn x(&self) -> (r: u32)
        requires
            self.data@.len() >= 4,
        ensures
            r == word_at(self.data@, 0),
    {
        u32_from_le_bytes(&self.data[0..4])
    }

    /// Bit pattern of the second field.
    pub fn y(&self) -> (r: u32)
        requires
            self.data@.len() >= 8,
        ensures
            r == word_at(self.data@, 4),
    {
        u32_from_le_bytes(&self.data[4..8])
    }

    /// Bit pattern of the third field.
    pub fn z(&self) -> (r: u32)
        requires
            self.data@.len() >= 12,
        ensures
            r == word_at(self.data@, 8),
    {
        u32_from_le_bytes(&self.data[8..12])
    }
}

} // verus!
