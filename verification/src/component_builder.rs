use vstd::prelude::*;
use vstd::string::StringExecFns;
use crate::component::{field_size, fields_size, layout_wf, ComponentSchema, FieldSchema, FieldType};

verus! {

/// Fluent builder for `ComponentSchema`: fields are packed back to back in
/// the order they are added.
pub struct ComponentBuilder {
    name: String,
    fields: Vec<FieldSchema>,
    size: usize,
}

impl ComponentBuilder {
    pub closed spec fn spec_name(&self) -> Seq<char> {
        self.name@
    }

    pub closed spec fn spec_fields(&self) -> Seq<FieldSchema> {
        self.fields@
    }

    pub closed spec fn spec_size(&self) -> nat {
        self.size as nat
    }

    /// Fields packed from offset 0 and `size` their total width.
    pub open spec fn wf(&self) -> bool {
        layout_wf(self.spec_fields(), self.spec_size())
    }

    /// A builder for a component called `name`, with no fields yet.
    pub fn new(name: &str) -> (r: Self)
        ensures
            r.wf(),
            r.spec_name() == name@,
            r.spec_fields() == Seq::<FieldSchema>::empty(),
            r.spec_size() == 0,
    {
        Self { name: String::from_str(name), fields: Vec::new(), size: 0 }
    }

    /// Append a field of type `field_type` at the current end of the layout.
    pub fn field(self, name: &str, field_type: FieldType) -> (r: Self)
        requires
            self.spec_size() + field_size(field_type) <= usize::MAX,
        ensures
            r.spec_name() == self.spec_name(),
            r.spec_size() == self.spec_size() + field_size(field_type),
            r.spec_fields().len() == self.spec_fields().len() + 1,
            r.spec_fields().drop_last() == self.spec_fields(),
            r.spec_fields().last().name@ == name@,
            r.spec_fields().last().field_type == field_type,
            r.spec_fields().last().offset == self.spec_size(),
            self.wf() ==> r.wf(),
    {
        let mut b = self;
        let offset = b.size;
        b.fields.push(FieldSchema { name: String::from_str(name), field_type, offset });
        b.size = b.size + field_type.size();
        proof {
            let f = b.fields@;
            assert(f.drop_last() =~= self.fields@);
            if self.wf() {
                assert forall|i: int| 0 <= i < f.len() implies #[trigger] f[i].offset == fields_size(f, i) by {
                    if i < f.len() - 1 {
                        lemma_fields_size_prefix(self.fields@, f, i);
                    } else {
                        lemma_fields_size_prefix(self.fields@, f, i);
                    }
                }
                lemma_fields_size_prefix(self.fields@, f, self.fields@.len() as int);
            }
        }
        b
    }

    /// The schema built so far (id 0; the registry assigns the real id).
    pub fn build(self) -> (r: ComponentSchema)
        ensures
            r.id == 0,
            r.name@ == self.spec_name(),
            r.size == self.spec_size(),
            r.fields@ == self.spec_fields(),
            self.wf() ==> r.wf(),
    {
        ComponentSchema { id: 0, name: self.name, size: self.size, fields: self.fields }
    }
}

/// Sizes of a prefix only depend on the prefix.
proof fn lemma_fields_size_prefix(a: Seq<FieldSchema>, b: Seq<FieldSchema>, n: int)
    requires
        0 <= n <= a.len(),
        a.len() <= b.len(),
        forall|i: int| 0 <= i < a.len() ==> #[trigger] a[i] == b[i],
    ensures
        fields_size(a, n) == fields_size(b, n),
    decreases n,
{
    if n > 0 {
        lemma_fields_size_prefix(a, b, n - 1);
    }
}

} // verus!
