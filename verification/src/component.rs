use vstd::prelude::*;
use vstd::bytes::*;
use crate::component_value::ComponentValue;
use crate::text::{push_str, push_u64, spec_decimal};

verus! {

/// Supported field types for component schemas.
#[derive(Debug, Clone, Copy, PartialEq, Eq, Structural)]
pub enum FieldType {
    F32,
    F64,
    I8,
    I16,
    I32,
    I64,
    U8,
    U16,
    U32,
    U64,
    Bool,
}

/// Byte width of a field of type `ft`.
pub open spec fn field_size(ft: FieldType) -> nat {
    match ft {
        FieldType::F32 => 4,
        FieldType::F64 => 8,
        FieldType::I8 => 1,
        FieldType::I16 => 2,
        FieldType::I32 => 4,
        FieldType::I64 => 8,
        FieldType::U8 => 1,
        FieldType::U16 => 2,
        FieldType::U32 => 4,
        FieldType::U64 => 8,
        FieldType::Bool => 1,
    }
}

/// `v` is a value of field type `ft`.
pub open spec fn value_matches(ft: FieldType, v: ComponentValue) -> bool {
    match (ft, v) {
        (FieldType::F32, ComponentValue::F32(_)) => true,
        (FieldType::F64, ComponentValue::F64(_)) => true,
        (FieldType::I8, ComponentValue::I8(_)) => true,
        (FieldType::I16, ComponentValue::I16(_)) => true,
        (FieldType::I32, ComponentValue::I32(_)) => true,
        (FieldType::I64, ComponentValue::I64(_)) => true,
        (FieldType::U8, ComponentValue::U8(_)) => true,
        (FieldType::U16, ComponentValue::U16(_)) => true,
        (FieldType::U32, ComponentValue::U32(_)) => true,
        (FieldType::U64, ComponentValue::U64(_)) => true,
        (FieldType::Bool, ComponentValue::Bool(_)) => true,
        _ => false,
    }
}

/// Little-endian encoding of a value (signed integers in two's complement,
/// booleans as one byte 1/0, floats by their bit patterns).
pub open spec fn spec_encode(v: ComponentValue) -> Seq<u8> {
    match v {
        ComponentValue::F32(b) => spec_u32_to_le_bytes(b),
        ComponentValue::F64(b) => spec_u64_to_le_bytes(b),
        ComponentValue::I8(x) => seq![x as u8],
        ComponentValue::I16(x) => spec_u16_to_le_bytes(x as u16),
        ComponentValue::I32(x) => spec_u32_to_le_bytes(x as u32),
        ComponentValue::I64(x) => spec_u64_to_le_bytes(x as u64),
        ComponentValue::U8(x) => seq![x],
        ComponentValue::U16(x) => spec_u16_to_le_bytes(x),
        ComponentValue::U32(x) => spec_u32_to_le_bytes(x),
        ComponentValue::U64(x) => spec_u64_to_le_bytes(x),
        ComponentValue::Bool(b) => seq![if b { 1u8 } else { 0u8 }],
    }
}

/// Value of type `ft` read from the first `field_size(ft)` bytes of `bytes`
/// (a bool is any nonzero byte).
pub open spec fn spec_decode(ft: FieldType, bytes: Seq<u8>) -> ComponentValue {
    match ft {
        FieldType::F32 => ComponentValue::F32(spec_u32_from_le_bytes(bytes.subrange(0, 4))),
        FieldType::F64 => ComponentValue::F64(spec_u64_from_le_bytes(bytes.subrange(0, 8))),
        FieldType::I8 => ComponentValue::I8(bytes[0] as i8),
        FieldType::I16 => ComponentValue::I16(spec_u16_from_le_bytes(bytes.subrange(0, 2)) as i16),
        FieldType::I32 => ComponentValue::I32(spec_u32_from_le_bytes(bytes.subrange(0, 4)) as i32),
        FieldType::I64 => ComponentValue::I64(spec_u64_from_le_bytes(bytes.subrange(0, 8)) as i64),
        FieldType::U8 => ComponentValue::U8(bytes[0]),
        FieldType::U16 => ComponentValue::U16(spec_u16_from_le_bytes(bytes.subrange(0, 2))),
        FieldType::U32 => ComponentValue::U32(spec_u32_from_le_bytes(bytes.subrange(0, 4))),
        FieldType::U64 => ComponentValue::U64(spec_u64_from_le_bytes(bytes.subrange(0, 8))),
        FieldType::Bool => ComponentValue::Bool(bytes[0] != 0),
    }
}

/// Name of a field type as used in schema descriptions.
pub open spec fn spec_type_name(ft: FieldType) -> Seq<char> {
    match ft {
        FieldType::F32 => "f32"@,
        FieldType::F64 => "f64"@,
        FieldType::I8 => "i8"@,
        FieldType::I16 => "i16"@,
        FieldType::I32 => "i32"@,
        FieldType::I64 => "i64"@,
        FieldType::U8 => "u8"@,
        FieldType::U16 => "u16"@,
        FieldType::U32 => "u32"@,
        FieldType::U64 => "u64"@,
        FieldType::Bool => "bool"@,
    }
}

/// The encoding of a value has the width of its field type.
pub proof fn lemma_encode_len(ft: FieldType, v: ComponentValue)
    requires
        value_matches(ft, v),
    ensures
        spec_encode(v).len() == field_size(ft),
{
    lemma_auto_spec_u16_to_from_le_bytes();
    lemma_auto_spec_u32_to_from_le_bytes();
    lemma_auto_spec_u64_to_from_le_bytes();
}

/// Decoding the encoding of a value gives the value back.
pub proof fn lemma_decode_encode(ft: FieldType, v: ComponentValue, extra: Seq<u8>)
    requires
        value_matches(ft, v),
    ensures
        spec_decode(ft, spec_encode(v) + extra) == v,
{
    lemma_auto_spec_u16_to_from_le_bytes();
    lemma_auto_spec_u32_to_from_le_bytes();
    lemma_auto_spec_u64_to_from_le_bytes();
    let e = spec_encode(v);
    let s = e + extra;
    match v {
        ComponentValue::F32(b) => {
            assert(s.subrange(0, 4) =~= e);
        },
        ComponentValue::F64(b) => {
            assert(s.subrange(0, 8) =~= e);
        },
        ComponentValue::I8(x) => {
            assert(s[0] == x as u8);
            assert((x as u8) as i8 == x) by (bit_vector);
        },
        ComponentValue::I16(x) => {
            assert(s.subrange(0, 2) =~= e);
            assert((x as u16) as i16 == x) by (bit_vector);
        },
        ComponentValue::I32(x) => {
            assert(s.subrange(0, 4) =~= e);
            assert((x as u32) as i32 == x) by (bit_vector);
        },
        ComponentValue::I64(x) => {
            assert(s.subrange(0, 8) =~= e);
            assert((x as u64) as i64 == x) by (bit_vector);
        },
        ComponentValue::U8(x) => {
            assert(s[0] == x);
        },
        ComponentValue::U16(x) => {
            assert(s.subrange(0, 2) =~= e);
        },
        ComponentValue::U32(x) => {
            assert(s.subrange(0, 4) =~= e);
        },
        ComponentValue::U64(x) => {
            assert(s.subrange(0, 8) =~= e);
        },
        ComponentValue::Bool(b) => {
            assert(s[0] == if b { 1u8 } else { 0u8 });
        },
    }
}

/// Append every byte of `bytes` to `out`.
pub fn extend_bytes(out: &mut Vec<u8>, bytes: &[u8])
    ensures
        final(out)@ == old(out)@ + bytes@,
{
    let mut i: usize = 0;
    while i < bytes.len()
        invariant
            i <= bytes@.len(),
            out@ == old(out)@ + bytes@.subrange(0, i as int),
        decreases bytes@.len() - i,
    {
        out.push(bytes[i]);
        i = i + 1;
        assert(out@ =~= old(out)@ + bytes@.subrange(0, i as int));
    }
    assert(bytes@.subrange(0, bytes@.len() as int) =~= bytes@);
}

impl FieldType {
    /// Byte width of this field type.
    pub fn size(self) -> (r: usize)
        ensures
            r == field_size(self),
    {
        match self {
            FieldType::F32 => 4,
            FieldType::F64 => 8,
            FieldType::I8 => 1,
            FieldType::I16 => 2,
            FieldType::I32 => 4,
            FieldType::I64 => 8,
            FieldType::U8 => 1,
            FieldType::U16 => 2,
            FieldType::U32 => 4,
            FieldType::U64 => 8,
            FieldType::Bool => 1,
        }
    }

    /// Whether `value` is a value of this field type (what `write_value` needs).
    pub fn accepts(self, value: &ComponentValue) -> (r: bool)
        ensures
            r == value_matches(self, *value),
    {
        match (self, value) {
            (FieldType::F32, ComponentValue::F32(_)) => true,
            (FieldType::F64, ComponentValue::F64(_)) => true,
            (FieldType::I8, ComponentValue::I8(_)) => true,
            (FieldType::I16, ComponentValue::I16(_)) => true,
            (FieldType::I32, ComponentValue::I32(_)) => true,
            (FieldType::I64, ComponentValue::I64(_)) => true,
            (FieldType::U8, ComponentValue::U8(_)) => true,
            (FieldType::U16, ComponentValue::U16(_)) => true,
            (FieldType::U32, ComponentValue::U32(_)) => true,
            (FieldType::U64, ComponentValue::U64(_)) => true,
            (FieldType::Bool, ComponentValue::Bool(_)) => true,
            _ => false,
        }
    }

    /// Append the little-endian encoding of `value` (which must be of this type).
    pub fn write_value(self, value: &ComponentValue, output: &mut Vec<u8>)
        requires
            value_matches(self, *value),
        ensures
            final(output)@ == old(output)@ + spec_encode(*value),
    {
        match value {
            ComponentValue::F32(v) => {
                let b = u32_to_le_bytes(*v);
                extend_bytes(output, b.as_slice());
            },
            ComponentValue::F64(v) => {
                let b = u64_to_le_bytes(*v);
                extend_bytes(output, b.as_slice());
            },
            ComponentValue::I8(v) => {
                output.push(*v as u8);
                assert(output@ =~= old(output)@ + spec_encode(*value));
            },
            ComponentValue::I16(v) => {
                let b = u16_to_le_bytes(*v as u16);
                extend_bytes(output, b.as_slice());
            },
            ComponentValue::I32(v) => {
                let b = u32_to_le_bytes(*v as u32);
                extend_bytes(output, b.as_slice());
            },
            ComponentValue::I64(v) => {
                let b = u64_to_le_bytes(*v as u64);
                extend_bytes(output, b.as_slice());
            },
            ComponentValue::U8(v) => {
                output.push(*v);
                assert(output@ =~= old(output)@ + spec_encode(*value));
            },
            ComponentValue::U16(v) => {
                let b = u16_to_le_bytes(*v);
                extend_bytes(output, b.as_slice());
            },
            ComponentValue::U32(v) => {
                let b = u32_to_le_bytes(*v);
                extend_bytes(output, b.as_slice());
            },
            ComponentValue::U64(v) => {
                let b = u64_to_le_bytes(*v);
                extend_bytes(output, b.as_slice());
            },
            ComponentValue::Bool(v) => {
                output.push(if *v { 1u8 } else { 0u8 });
                assert(output@ =~= old(output)@ + spec_encode(*value));
            },
        }
    }

    /// Read a value of this type from the start of `bytes`.
    pub fn read_value(self, bytes: &[u8]) -> (r: ComponentValue)
        requires
            bytes@.len() >= field_size(self),
        ensures
            r == spec_decode(self, bytes@),
    {
        match self {
            FieldType::F32 => ComponentValue::F32(u32_from_le_bytes(&bytes[0..4])),
            FieldType::F64 => ComponentValue::F64(u64_from_le_bytes(&bytes[0..8])),
            FieldType::I8 => ComponentValue::I8(bytes[0] as i8),
            FieldType::I16 => ComponentValue::I16(u16_from_le_bytes(&bytes[0..2]) as i16),
            FieldType::I32 => ComponentValue::I32(u32_from_le_bytes(&bytes[0..4]) as i32),
            FieldType::I64 => ComponentValue::I64(u64_from_le_bytes(&bytes[0..8]) as i64),
            FieldType::U8 => ComponentValue::U8(bytes[0]),
            FieldType::U16 => ComponentValue::U16(u16_from_le_bytes(&bytes[0..2])),
            FieldType::U32 => ComponentValue::U32(u32_from_le_bytes(&bytes[0..4])),
            FieldType::U64 => ComponentValue::U64(u64_from_le_bytes(&bytes[0..8])),
            FieldType::Bool => ComponentValue::Bool(bytes[0] != 0),
        }
    }

    /// Name of this type as used in schema descriptions (`"f32"`, `"bool"`, ...).
    pub fn type_str(&self) -> (r: &'static str)
        ensures
            r@ == spec_type_name(*self),
            crate::field_list::field_type_named(r@) == Some(*self),
    {
        proof {
            crate::field_list::lemma_type_name_round_trip(*self);
        }
        match self {
            FieldType::F32 => "f32",
            FieldType::F64 => "f64",
            FieldType::I8 => "i8",
            FieldType::I16 => "i16",
            FieldType::I32 => "i32",
            FieldType::I64 => "i64",
            FieldType::U8 => "u8",
            FieldType::U16 => "u16",
            FieldType::U32 => "u32",
            FieldType::U64 => "u64",
            FieldType::Bool => "bool",
        }
    }
}

/// One named field of a component schema, at byte `offset` within the component.
#[derive(Debug, Clone)]
pub struct FieldSchema {
    pub name: String,
    pub field_type: FieldType,
    pub offset: usize,
}

/// Layout of a component: its fields in order and its total byte size.
#[derive(Debug, Clone)]
pub struct ComponentSchema {
    pub id: u32,
    pub name: String,
    pub size: usize,
    pub fields: Vec<FieldSchema>,
}

/// Total width of the first `n` fields.
pub open spec fn fields_size(fields: Seq<FieldSchema>, n: int) -> nat
    decreases n,
{
    if n <= 0 {
        0
    } else {
        fields_size(fields, n - 1) + field_size(fields[n - 1].field_type)
    }
}

/// The fields are packed back to back from offset 0 and `size` is their total width.
pub open spec fn layout_wf(fields: Seq<FieldSchema>, size: nat) -> bool {
    &&& forall|i: int| 0 <= i < fields.len() ==> #[trigger] fields[i].offset == fields_size(fields, i)
    &&& size == fields_size(fields, fields.len() as int)
}

/// `values` has one value per field, each of that field's type.
pub open spec fn values_match(fields: Seq<FieldSchema>, values: Seq<ComponentValue>) -> bool {
    &&& values.len() == fields.len()
    &&& forall|i: int| 0 <= i < values.len() ==> value_matches(#[trigger] fields[i].field_type, values[i])
}

/// Encodings of the first `n` values, concatenated.
pub open spec fn spec_serialize(values: Seq<ComponentValue>, n: int) -> Seq<u8>
    decreases n,
{
    if n <= 0 {
        Seq::empty()
    } else {
        spec_serialize(values, n - 1) + spec_encode(values[n - 1])
    }
}

/// Each field decoded from its own byte range.
pub open spec fn spec_deserialize(fields: Seq<FieldSchema>, bytes: Seq<u8>) -> Seq<ComponentValue> {
    Seq::new(
        fields.len(),
        |i: int|
            spec_decode(
                fields[i].field_type,
                bytes.subrange(
                    fields[i].offset as int,
                    fields[i].offset + field_size(fields[i].field_type),
                ),
            ),
    )
}

/// Every field's byte range lies within `len` bytes.
pub open spec fn fields_fit(fields: Seq<FieldSchema>, len: nat) -> bool {
    forall|i: int|
        0 <= i < fields.len() ==> #[trigger] fields[i].offset + field_size(fields[i].field_type) <= len
}

proof fn lemma_fields_size_mono(fields: Seq<FieldSchema>, i: int, j: int)
    requires
        i <= j,
    ensures
        fields_size(fields, i) <= fields_size(fields, j),
    decreases j - i,
{
    if i < j {
        lemma_fields_size_mono(fields, i, j - 1);
    }
}

/// Serialized bytes of well-typed values have the layout's size, and field `i`'s
/// byte range holds the encoding of value `i`.
pub proof fn lemma_serialize_layout(fields: Seq<FieldSchema>, values: Seq<ComponentValue>, n: int)
    requires
        values_match(fields, values),
        0 <= n <= fields.len(),
    ensures
        spec_serialize(values, n).len() == fields_size(fields, n),
        forall|i: int|
            0 <= i < n ==> #[trigger] spec_serialize(values, n).subrange(
                fields_size(fields, i) as int,
                fields_size(fields, i + 1) as int,
            ) == spec_encode(values[i]),
    decreases n,
{
    if n > 0 {
        lemma_serialize_layout(fields, values, n - 1);
        lemma_encode_len(fields[n - 1].field_type, values[n - 1]);
        let prev = spec_serialize(values, n - 1);
        let cur = spec_serialize(values, n);
        assert forall|i: int| 0 <= i < n implies #[trigger] cur.subrange(
            fields_size(fields, i) as int,
            fields_size(fields, i + 1) as int,
        ) == spec_encode(values[i]) by {
            if i < n - 1 {
                lemma_fields_size_mono(fields, i + 1, n - 1);
                assert(cur.subrange(fields_size(fields, i) as int, fields_size(fields, i + 1) as int)
                    =~= prev.subrange(fields_size(fields, i) as int, fields_size(fields, i + 1) as int));
            } else {
                assert(cur.subrange(fields_size(fields, i) as int, fields_size(fields, i + 1) as int)
                    =~= spec_encode(values[i]));
            }
        }
    }
}

/// Deserializing the serialization of well-typed values under a well-formed
/// layout gives the values back.
pub proof fn lemma_deserialize_serialize(fields: Seq<FieldSchema>, size: nat, values: Seq<ComponentValue>)
    requires
        layout_wf(fields, size),
        values_match(fields, values),
    ensures
        spec_serialize(values, values.len() as int).len() == size,
        fields_fit(fields, size),
        spec_deserialize(fields, spec_serialize(values, values.len() as int)) == values,
{
    let n = fields.len() as int;
    lemma_serialize_layout(fields, values, n);
    let bytes = spec_serialize(values, n);
    assert forall|i: int| 0 <= i < n implies #[trigger] fields[i].offset + field_size(fields[i].field_type) <= size by {
        lemma_fields_size_mono(fields, i + 1, n);
    }
    assert forall|i: int| 0 <= i < n implies #[trigger] spec_deserialize(fields, bytes)[i] == values[i] by {
        let sub = bytes.subrange(fields_size(fields, i) as int, fields_size(fields, i + 1) as int);
        assert(sub == spec_encode(values[i]));
        lemma_decode_encode(fields[i].field_type, values[i], Seq::empty());
        assert(sub + Seq::<u8>::empty() =~= sub);
    }
    assert(spec_deserialize(fields, bytes) =~= values);
}

/// Decoding gives one value of the right type per field.
pub proof fn lemma_deserialize_typed(fields: Seq<FieldSchema>, bytes: Seq<u8>)
    ensures
        values_match(fields, spec_deserialize(fields, bytes)),
{
    let vs = spec_deserialize(fields, bytes);
    assert forall|i: int| 0 <= i < vs.len() implies value_matches(#[trigger] fields[i].field_type, vs[i]) by {
        let ft = fields[i].field_type;
        match ft {
            FieldType::F32 => {},
            FieldType::F64 => {},
            FieldType::I8 => {},
            FieldType::I16 => {},
            FieldType::I32 => {},
            FieldType::I64 => {},
            FieldType::U8 => {},
            FieldType::U16 => {},
            FieldType::U32 => {},
            FieldType::U64 => {},
            FieldType::Bool => {},
        }
    }
}

/// In a well-formed layout every field lies within the component's size.
pub proof fn lemma_layout_fits(fields: Seq<FieldSchema>, size: nat)
    requires
        layout_wf(fields, size),
    ensures
        fields_fit(fields, size),
{
    let n = fields.len() as int;
    assert forall|i: int| 0 <= i < n implies #[trigger] fields[i].offset + field_size(fields[i].field_type) <= size by {
        lemma_fields_size_mono(fields, i + 1, n);
    }
}

/// JSON description of one field.
pub open spec fn spec_field_json(f: FieldSchema) -> Seq<char> {
    "{\"name\":\""@ + f.name@ + "\",\"type\":\""@ + spec_type_name(f.field_type) + "\",\"offset\":"@
        + spec_decimal(f.offset as nat) + "}"@
}

/// JSON descriptions of the first `n` fields, separated by commas.
pub open spec fn spec_fields_json(fields: Seq<FieldSchema>, n: int) -> Seq<char>
    decreases n,
{
    if n <= 0 {
        Seq::empty()
    } else if n == 1 {
        spec_field_json(fields[0])
    } else {
        spec_fields_json(fields, n - 1) + ","@ + spec_field_json(fields[n - 1])
    }
}

impl ComponentSchema {
    /// Fields packed from offset 0, `size` their total width.
    pub open spec fn wf(&self) -> bool {
        layout_wf(self.fields@, self.size as nat)
    }

    /// JSON description: `{"id":..,"name":"..","size":..,"fields":[..]}`.
    pub open spec fn spec_describe(&self) -> Seq<char> {
        "{\"id\":"@ + spec_decimal(self.id as nat) + ",\"name\":\""@ + self.name@ + "\",\"size\":"@
            + spec_decimal(self.size as nat) + ",\"fields\":["@ + spec_fields_json(
            self.fields@,
            self.fields@.len() as int,
        ) + "]}"@
    }

    /// Whether `values` holds one value of the right type per field, in field
    /// order (what `serialize` needs).
    pub fn accepts(&self, values: &[ComponentValue]) -> (r: bool)
        ensures
            r == values_match(self.fields@, values@),
    {
        if self.fields.len() != values.len() {
            return false;
        }
        let mut i: usize = 0;
        while i < values.len()
            invariant
                i <= values@.len(),
                values@.len() == self.fields@.len(),
                forall|k: int| 0 <= k < i ==> value_matches(#[trigger] self.fields@[k].field_type, values@[k]),
            decreases values@.len() - i,
        {
            if !self.fields[i].field_type.accepts(&values[i]) {
                return false;
            }
            i = i + 1;
        }
        true
    }

    /// Serialize component values (one per field, in field order) into
    /// contiguous bytes.
    pub fn serialize(&self, values: &[ComponentValue]) -> (r: Vec<u8>)
        requires
            values_match(self.fields@, values@),
        ensures
            r@ == spec_serialize(values@, values@.len() as int),
            self.wf() ==> r@.len() == self.size,
    {
        let mut bytes: Vec<u8> = Vec::new();
        let n = values.len();
        let mut i: usize = 0;
        while i < n
            invariant
                n == values@.len(),
                i <= n,
                values_match(self.fields@, values@),
                bytes@ == spec_serialize(values@, i as int),
            decreases n - i,
        {
            let ft = self.fields[i].field_type;
            ft.write_value(&values[i], &mut bytes);
            i = i + 1;
        }
        proof {
            if self.wf() {
                lemma_deserialize_serialize(self.fields@, self.size as nat, values@);
            }
        }
        bytes
    }

    /// Decode every field from its byte range within `bytes`.
    pub fn deserialize(&self, bytes: &[u8]) -> (r: Vec<ComponentValue>)
        requires
            fields_fit(self.fields@, bytes@.len()),
        ensures
            r@ == spec_deserialize(self.fields@, bytes@),
    {
        let mut result: Vec<ComponentValue> = Vec::new();
        let n = self.fields.len();
        let mut i: usize = 0;
        while i < n
            invariant
                n == self.fields@.len(),
                i <= n,
                fields_fit(self.fields@, bytes@.len()),
                result@ == spec_deserialize(self.fields@, bytes@).subrange(0, i as int),
            decreases n - i,
        {
            let field = &self.fields[i];
            let blen = bytes.len();
            assert(self.fields@[i as int].offset + field_size(self.fields@[i as int].field_type) <= bytes@.len());
            let start = field.offset;
            let end = start + field.field_type.size();
            let v = field.field_type.read_value(&bytes[start..end]);
            result.push(v);
            i = i + 1;
            assert(result@ =~= spec_deserialize(self.fields@, bytes@).subrange(0, i as int));
        }
        assert(spec_deserialize(self.fields@, bytes@).subrange(0, n as int) =~= spec_deserialize(self.fields@, bytes@));
        result
    }

    /// Returns a JSON description for interop:
    /// `{"id":..,"name":"..","size":..,"fields":[{"name":"..","type":"..","offset":..},..]}`.
    pub fn describe(&self) -> (r: String)
        ensures
            r@ == self.spec_describe(),
    {
        let mut s = String::new();
        push_str(&mut s, "{\"id\":");
        push_u64(&mut s, self.id as u64);
        push_str(&mut s, ",\"name\":\"");
        push_str(&mut s, self.name.as_str());
        push_str(&mut s, "\",\"size\":");
        push_u64(&mut s, self.size as u64);
        push_str(&mut s, ",\"fields\":[");
        let ghost prefix = s@;
        let n = self.fields.len();
        let mut i: usize = 0;
        while i < n
            invariant
                n == self.fields@.len(),
                i <= n,
                s@ == prefix + spec_fields_json(self.fields@, i as int),
            decreases n - i,
        {
            if i > 0 {
                push_str(&mut s, ",");
            }
            let f = &self.fields[i];
            push_str(&mut s, "{\"name\":\"");
            push_str(&mut s, f.name.as_str());
            push_str(&mut s, "\",\"type\":\"");
            push_str(&mut s, f.field_type.type_str());
            push_str(&mut s, "\",\"offset\":");
            push_u64(&mut s, f.offset as u64);
            push_str(&mut s, "}");
            i = i + 1;
            proof {
                let fj = spec_field_json(self.fields@[i - 1]);
                if i == 1 {
                    assert(s@ =~= prefix + fj);
                } else {
                    assert(s@ =~= prefix + spec_fields_json(self.fields@, i - 1) + ","@ + fj);
                }
            }
        }
        push_str(&mut s, "]}");
        assert(s@ =~= self.spec_describe());
        s
    }
}

} // verus!
