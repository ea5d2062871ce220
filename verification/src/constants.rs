use vstd::prelude::*;

verus! {

/// Number of entities per chunk.
pub const CHUNK_CAPACITY: usize = 16384;

/// Maximum number of component types supported.
pub const MAX_COMPONENTS: usize = 256;

} // verus!
