use ecs_core::{ComponentBuilder, FieldType, World};

#[test]
fn register_position() {
    let mut world = World::new();

    let id = world.register_component(
        ComponentBuilder::new("Position")
            .field("x", FieldType::F32)
            .field("y", FieldType::F32)
            .build(),
    );

    assert_eq!(id, 0);

    let schema = world.component_registry.get(id).unwrap();

    assert_eq!(schema.size, 8);

    assert_eq!(schema.fields.len(), 2);
}

#[test]
fn registering_a_known_name_returns_its_id() {
    let mut world = World::new();
    let a = world.register_component(ComponentBuilder::new("A").field("v", FieldType::U8).build());
    let b = world.register_component(ComponentBuilder::new("B").field("v", FieldType::U64).build());
    let a2 = world.register_component(ComponentBuilder::new("A").field("w", FieldType::U16).build());
    assert_eq!((a, b, a2), (0, 1, 0));
    assert_eq!(world.component_registry.count(), 2);
    assert_eq!(world.component_registry.get(b).unwrap().size, 8);
    assert_eq!(world.component_id("B"), Some(1));
}

#[test]
fn builder_offsets_follow_packed_layout() {
    let schema = ComponentBuilder::new("Mixed")
        .field("a", FieldType::U8)
        .field("b", FieldType::F64)
        .field("c", FieldType::I16)
        .field("d", FieldType::Bool)
        .build();
    assert_eq!(schema.size, 12);
    let offsets: Vec<usize> = schema.fields.iter().map(|f| f.offset).collect();
    assert_eq!(offsets, vec![0, 1, 9, 11]);
}

#[test]
fn describe_is_json() {
    let schema = ComponentBuilder::new("Pos").field("x", FieldType::F32).field("n", FieldType::U16).build();
    assert_eq!(
        schema.describe(),
        "{\"id\":0,\"name\":\"Pos\",\"size\":6,\"fields\":[{\"name\":\"x\",\"type\":\"f32\",\"offset\":0},{\"name\":\"n\",\"type\":\"u16\",\"offset\":4}]}"
    );
}

#[test]
fn first_registrations_get_ids_in_order() {
    let mut world = World::new();
    assert_eq!(world.component_registry.count(), 0);
    assert!(world.component_registry.get_by_name("Position").is_none());
    let pos = world.register_component(
        ComponentBuilder::new("Position").field("x", FieldType::F32).field("y", FieldType::F32).build(),
    );
    let vel = world.register_component(
        ComponentBuilder::new("Velocity").field("x", FieldType::F32).field("y", FieldType::F32).build(),
    );
    assert_eq!((pos, vel), (0, 1));
    assert_eq!(world.component_registry.get_by_name("Velocity").unwrap().id, vel);
    assert_eq!(world.register_component(ComponentBuilder::new("Position").field("z", FieldType::U8).build()), pos);
    assert_eq!(world.component_registry.count(), 2);
}
