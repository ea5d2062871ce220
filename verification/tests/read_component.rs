use ecs_core::{ComponentBuilder, ComponentInstance, ComponentValue, FieldType, World};

#[test]
fn read_position() {
    let mut world = World::new();

    let position = world.register_component(
        ComponentBuilder::new("Position")
            .field("x", FieldType::F32)
            .field("y", FieldType::F32)
            .build(),
    );

    let entity = world.spawn(vec![ComponentInstance::new(
        position,
        vec![ComponentValue::F32(100.0f32.to_bits()), ComponentValue::F32(200.0f32.to_bits())],
    )]);

    let values = world.get_component(entity, position).unwrap();

    match &values[0] {
        ComponentValue::F32(v) => assert_eq!(f32::from_bits(*v), 100.0),
        _ => panic!(),
    }

    match &values[1] {
        ComponentValue::F32(v) => assert_eq!(f32::from_bits(*v), 200.0),
        _ => panic!(),
    }
}

#[test]
fn dead_handle_reads_nothing_after_slot_reuse() {
    let mut world = World::new();
    let position = world.register_component(
        ComponentBuilder::new("Position").field("x", FieldType::F32).field("y", FieldType::F32).build(),
    );
    let old = world.spawn(vec![ComponentInstance::new(
        position,
        vec![ComponentValue::F32(10.0f32.to_bits()), ComponentValue::F32(20.0f32.to_bits())],
    )]);
    world.despawn(old).unwrap();
    let new = world.spawn(vec![ComponentInstance::new(
        position,
        vec![ComponentValue::F32(30.0f32.to_bits()), ComponentValue::F32(40.0f32.to_bits())],
    )]);
    assert_eq!(new.id, old.id);
    assert_eq!(world.read_component_u32(old, position, 0), None);
    assert_eq!(world.read_component_u32(new, position, 0), Some(30.0f32.to_bits()));
    assert!(world.get_component_raw(old, position).is_empty());
    assert_eq!(world.get_component(old, position), None);
    assert!(world.get_component_bytes(old, position).is_none());
    assert_eq!(world.get_component_bytes(new, position).unwrap().len(), 8);
    assert_eq!(world.get_component_raw(new, position).len(), 8);
}
