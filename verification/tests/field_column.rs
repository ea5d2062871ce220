use ecs_core::{FieldColumn, FieldType};

#[test]
fn field_column_len() {
    let mut column = FieldColumn::new("x".into(), FieldType::F32);

    column.data.extend_from_slice(&1.0f32.to_le_bytes());

    column.data.extend_from_slice(&2.0f32.to_le_bytes());

    column.data.extend_from_slice(&3.0f32.to_le_bytes());

    assert_eq!(column.len(), 3);
}

#[test]
fn field_column_counts_whole_elements_only() {
    let mut column = FieldColumn::new("h".into(), FieldType::U16);
    assert!(column.is_empty());
    column.data.extend_from_slice(&[1, 2, 3]);
    assert_eq!(column.len(), 1);
    assert!(!column.is_empty());
}
