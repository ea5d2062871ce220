use ecs_core::{ComponentBuilder, ComponentColumn, FieldType};

#[test]
fn build_from_schema() {
    let schema = ComponentBuilder::new("Position")
        .field("x", FieldType::F32)
        .field("y", FieldType::F32)
        .build();

    let column = ComponentColumn::from_schema(&schema);

    assert_eq!(column.fields.len(), 2);

    assert_eq!(column.fields[0].field_name, "x");

    assert_eq!(column.fields[1].field_name, "y");
}

#[test]
fn field_index_finds_fields_by_name() {
    let schema = ComponentBuilder::new("Stats")
        .field("hp", FieldType::U32)
        .field("speed", FieldType::F32)
        .build();
    let column = ComponentColumn::from_schema(&schema);
    assert_eq!(column.field_index("speed"), Some(1));
    assert_eq!(column.field_index("hp"), Some(0));
    assert_eq!(column.field_index("mana"), None);
}
