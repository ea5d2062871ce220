use vstd::prelude::*;
use crate::component::{field_size, FieldType};

verus! {

/// A per-field column for struct-of-arrays iteration.
pub struct FieldColumn {
    pub field_name: String,
    pub field_type: FieldType,
    pub element_size: usize,
    pub data: Vec<u8>,
}

impl FieldColumn {
    /// An empty column for a field of type `field_type`.
    pub fn new(field_name: String, field_type: FieldType) -> (r: Self)
        ensures
            r.field_name@ == field_name@,
            r.field_type == field_type,
            r.element_size == field_size(field_type),
            r.data@ == Seq::<u8>::empty(),
    {
        Self { field_name, field_type, element_size: field_type.size(), data: Vec::new() }
    }

    /// Number of whole elements stored.
    pub fn len(&self) -> (r: usize)
        ensures
            r == if self.element_size == 0 {
                0
            } else {
                self.data@.len() / (self.element_size as nat)
            },
    {
        if self.element_size == 0 {
            0
        } else {
            self.data.len() / self.element_size
        }
    }

    /// Whether no bytes are stored.
    pub fn is_empty(&self) -> (r: bool)
        ensures
            r == (self.data@.len() == 0),
    {
        self.data.is_empty()
    }
}

} // verus!
