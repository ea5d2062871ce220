use vstd::prelude::*;
use crate::component_value::ComponentValue;

verus! {

/// A component value bundle for spawning entities: the component's id and
/// one value per schema field, in field order.
#[derive(Debug, Clone)]
pub struct ComponentInstance {
    pub component_id: u32,
    pub values: Vec<ComponentValue>,
}

impl ComponentInstance {
    pub fn new(component_id: u32, values: Vec<ComponentValue>) -> (r: Self)
        ensures
            r.component_id == component_id,
            r.values@ == values@,
    {
        Self { component_id, values }
    }
}

} // verus!
