use ecs_core::{ComponentBuilder, ComponentValue, FieldType};

#[test]
fn serialize_f32() {
    let mut data = Vec::new();

    FieldType::F32.write_value(&ComponentValue::F32(10.5f32.to_bits()), &mut data);

    assert_eq!(data.len(), 4);
}

#[test]
fn serialize_deserialize_round_trip_all_types() {
    let schema = ComponentBuilder::new("All")
        .field("a", FieldType::F32)
        .field("b", FieldType::F64)
        .field("c", FieldType::I8)
        .field("d", FieldType::I16)
        .field("e", FieldType::I32)
        .field("f", FieldType::I64)
        .field("g", FieldType::U8)
        .field("h", FieldType::U16)
        .field("i", FieldType::U32)
        .field("j", FieldType::U64)
        .field("k", FieldType::Bool)
        .build();
    let values = vec![
        ComponentValue::F32(1.5f32.to_bits()),
        ComponentValue::F64((-2.25f64).to_bits()),
        ComponentValue::I8(-3),
        ComponentValue::I16(-300),
        ComponentValue::I32(-70000),
        ComponentValue::I64(-5_000_000_000),
        ComponentValue::U8(200),
        ComponentValue::U16(60000),
        ComponentValue::U32(4_000_000_000),
        ComponentValue::U64(18_000_000_000_000_000_000),
        ComponentValue::Bool(true),
    ];
    let bytes = schema.serialize(&values);
    assert_eq!(bytes.len(), schema.size);
    assert_eq!(bytes.len(), 4 + 8 + 1 + 2 + 4 + 8 + 1 + 2 + 4 + 8 + 1);
    assert_eq!(schema.deserialize(&bytes), values);
}

#[test]
fn little_endian_encoding_of_integers() {
    let mut data = Vec::new();
    FieldType::U32.write_value(&ComponentValue::U32(0x0102_0304), &mut data);
    FieldType::I16.write_value(&ComponentValue::I16(-2), &mut data);
    FieldType::Bool.write_value(&ComponentValue::Bool(true), &mut data);
    assert_eq!(data, vec![4, 3, 2, 1, 0xfe, 0xff, 1]);
    assert_eq!(FieldType::U32.read_value(&data[0..4]), ComponentValue::U32(0x0102_0304));
    assert_eq!(FieldType::Bool.read_value(&[7]), ComponentValue::Bool(true));
    assert_eq!(FieldType::F64.size(), 8);
    assert_eq!(FieldType::I8.type_str(), "i8");
}
