use vstd::prelude::*;
use crate::component::{field_size, ComponentSchema};
use crate::field_column::FieldColumn;

verus! {

/// Higher-level column grouping all fields of one component (for query iteration).
pub struct ComponentColumn {
    pub component_id: u32,
    pub fields: Vec<FieldColumn>,
}

impl ComponentColumn {
    pub fn new(component_id: u32, fields: Vec<FieldColumn>) -> (r: Self)
        ensures
            r.component_id == component_id,
            r.fields@ == fields@,
    {
        Self { component_id, fields }
    }

    /// Index of the first field called `name`, if any.
    pub fn field_index(&self, name: &str) -> (r: Option<usize>)
        ensures
            match r {
                Some(i) => {
                    &&& i < self.fields@.len()
                    &&& self.fields@[i as int].field_name@ == name@
                    &&& forall|j: int| 0 <= j < i ==> self.fields@[j].field_name@ != name@
                },
                None => forall|j: int|
                    0 <= j < self.fields@.len() ==> self.fields@[j].field_name@ != name@,
            },
    {
        let wanted: String = name.to_owned();
        let mut i: usize = 0;
        while i < self.fields.len()
            invariant
                i <= self.fields@.len(),
                wanted@ == name@,
                forall|j: int| 0 <= j < i ==> self.fields@[j].field_name@ != name@,
            decreases self.fields@.len() - i,
        {
            if self.fields[i].field_name == wanted {
                return Some(i);
            }
            i = i + 1;
        }
        None
    }

    /// One empty field column per schema field, in schema order.
    pub fn from_schema(schema: &ComponentSchema) -> (r: Self)
        ensures
            r.component_id == schema.id,
            r.fields@.len() == schema.fields@.len(),
            forall|i: int|
                0 <= i < r.fields@.len() ==> {
                    &&& (#[trigger] r.fields@[i]).field_name@ == schema.fields@[i].name@
                    &&& r.fields@[i].field_type == schema.fields@[i].field_type
                    &&& r.fields@[i].element_size == field_size(schema.fields@[i].field_type)
                    &&& r.fields@[i].data@ == Seq::<u8>::empty()
                },
    {
        let mut fields: Vec<FieldColumn> = Vec::new();
        let mut i: usize = 0;
        while i < schema.fields.len()
            invariant
                i <= schema.fields@.len(),
                fields@.len() == i,
                forall|k: int|
                    0 <= k < i ==> {
                        &&& (#[trigger] fields@[k]).field_name@ == schema.fields@[k].name@
                        &&& fields@[k].field_type == schema.fields@[k].field_type
                        &&& fields@[k].element_size == field_size(schema.fields@[k].field_type)
                        &&& fields@[k].data@ == Seq::<u8>::empty()
                    },
            decreases schema.fields@.len() - i,
        {
            let f = &schema.fields[i];
            fields.push(FieldColumn::new(f.name.clone(), f.field_type));
            i = i + 1;
        }
        Self { component_id: schema.id, fields }
    }
}

} // verus!
