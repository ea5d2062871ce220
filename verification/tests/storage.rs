use ecs_core::{Column, ComponentBuilder, ComponentInstance, ComponentValue, FieldType, World};

#[test]
fn position_is_written() {
    let mut world = World::new();

    let position = world.register_component(
        ComponentBuilder::new("Position")
            .field("x", FieldType::F32)
            .field("y", FieldType::F32)
            .build(),
    );

    let entity = world.spawn(vec![ComponentInstance::new(
        position,
        vec![ComponentValue::F32(10.0f32.to_bits()), ComponentValue::F32(20.0f32.to_bits())],
    )]);

    assert!(world.is_alive(entity));

    assert_eq!(world.archetypes[0].chunks[0].entities.len(), 1);

    assert_eq!(world.archetypes[0].chunks[0].columns[0].data.len(), 8);
}

#[test]
fn archetype_lookup_ignores_order() {
    let mut world = World::new();
    let a = world.register_component(ComponentBuilder::new("A").field("v", FieldType::U8).build());
    let b = world.register_component(ComponentBuilder::new("B").field("v", FieldType::U8).build());
    let id = world.create_archetype(vec![b, a]);
    assert_eq!(world.create_archetype(vec![a, b]), id);
    assert_eq!(world.get_archetype_id(&[a, b]), Some(id));
    assert_eq!(world.get_archetype_id(&[a]), None);
    assert_eq!(world.archetypes[id as usize].component_ids, vec![a, b]);
    assert_eq!(world.archetype_count(), 1);
}

#[test]
fn column_swap_remove_reports_swap() {
    let mut col = Column::new(0, 2);
    col.push_bytes(&[1, 1]);
    col.push_bytes(&[2, 2]);
    col.push_bytes(&[3, 3]);
    assert!(col.swap_remove(0));
    assert_eq!(col.data, vec![3, 3, 2, 2]);
    assert!(!col.swap_remove(1));
    assert_eq!(col.data, vec![3, 3]);
    assert!(!col.swap_remove(0));
    assert!(col.data.is_empty());
}

#[test]
fn create_archetype_reuses_existing_set() {
    let mut world = World::new();
    let a = world.register_component(ComponentBuilder::new("A").field("v", FieldType::U32).build());
    let b = world.register_component(ComponentBuilder::new("B").field("v", FieldType::U32).build());
    let first = world.create_archetype(vec![b, a]);
    assert_eq!(world.archetype_count(), 1);
    let second = world.create_archetype(vec![a, b]);
    assert_eq!(second, first);
    assert_eq!(world.archetype_count(), 1);
    let third = world.create_archetype(vec![a]);
    assert_ne!(third, first);
    assert_eq!(world.archetype_count(), 2);
    assert_eq!(world.get_archetype_id(&[b, a]), Some(first));
    assert_eq!(world.get_archetype_id(&[a, a]), None);
    assert_eq!(world.get_archetype_id(&[b]), None);
}
