use ecs_core::{ComponentBuilder, ComponentInstance, ComponentValue, EcsError, FieldType, World};

#[test]
fn register_and_round_trip_resource() {
    let mut world = World::new();
    let time_id = world.register_resource(
        ComponentBuilder::new("Time")
            .field("elapsed", FieldType::F32)
            .field("delta", FieldType::F32)
            .build(),
    );

    world
        .set_resource(time_id, &[ComponentValue::F32(1.5f32.to_bits()), ComponentValue::F32(0.016f32.to_bits())])
        .unwrap();

    let values = world.get_resource(time_id).unwrap();
    assert_eq!(values[0].as_f32().map(f32::from_bits), Some(1.5));
    assert_eq!(values[1].as_f32().map(f32::from_bits), Some(0.016));
}

#[test]
fn resource_lookup_by_name_is_idempotent() {
    let mut world = World::new();
    let a = world.register_resource(ComponentBuilder::new("GameState").field("paused", FieldType::Bool).build());
    let b = world.register_resource(ComponentBuilder::new("GameState").field("paused", FieldType::Bool).build());
    assert_eq!(a, b);
    assert_eq!(world.resource_id("GameState"), Some(a));
}

#[test]
fn unregistered_resource_is_absent() {
    let world = World::new();
    assert_eq!(world.resource_id("DoesNotExist"), None);
    assert!(!world.has_resource(999));
    assert!(world.get_resource(999).is_none());
}

#[test]
fn setting_unregistered_resource_errors() {
    let mut world = World::new();
    let result = world.set_resource(999, &[ComponentValue::F32(1.0f32.to_bits())]);
    assert!(result.is_err());
    assert_eq!(result, Err(EcsError::ResourceNotRegistered(999)));
}

#[test]
fn resources_are_independent_of_components_of_the_same_name() {
    let mut world = World::new();
    let comp_id = world.register_component(ComponentBuilder::new("Time").field("x", FieldType::F32).build());
    let res_id = world.register_resource(ComponentBuilder::new("Time").field("elapsed", FieldType::F32).build());

    world.set_resource(res_id, &[ComponentValue::F32(42.0f32.to_bits())]).unwrap();
    let e = world.spawn(vec![ComponentInstance::new(comp_id, vec![ComponentValue::F32(7.0f32.to_bits())])]);

    assert_eq!(world.get_resource(res_id).unwrap()[0].as_f32().map(f32::from_bits), Some(42.0));
    assert_eq!(world.get_component(e, comp_id).unwrap()[0].as_f32().map(f32::from_bits), Some(7.0));
}

#[test]
fn new_resources_start_zeroed_and_reregistering_keeps_the_value() {
    let mut world = World::new();
    let id = world.register_resource(ComponentBuilder::new("Counter").field("n", FieldType::U32).build());
    assert_eq!(world.get_resource(id).unwrap(), vec![ComponentValue::U32(0)]);
    world.set_resource(id, &[ComponentValue::U32(5)]).unwrap();
    let again = world.register_resource(ComponentBuilder::new("Counter").field("n", FieldType::U32).build());
    assert_eq!(again, id);
    assert_eq!(world.get_resource(id).unwrap(), vec![ComponentValue::U32(5)]);
}

#[test]
fn resource_byte_level_access() {
    let mut world = World::new();
    let id = world.register_resource(
        ComponentBuilder::new("Time").field("elapsed", FieldType::U32).field("frame", FieldType::U32).build(),
    );
    assert!(world.resources.write_u32_at(id, 4, 77));
    assert!(!world.resources.write_u32_at(id, 6, 1));
    assert!(!world.resources.write_u32_at(999, 0, 1));
    assert_eq!(world.resources.read_u32_at(id, 4), Some(77));
    assert_eq!(world.resources.read_u32_at(id, 5), None);
    assert_eq!(world.resources.get_bytes(id).unwrap().len(), 8);
    {
        let b = world.resources.get_bytes_mut(id).unwrap();
        b[0] = 3;
    }
    assert_eq!(world.get_resource(id).unwrap(), vec![ComponentValue::U32(3), ComponentValue::U32(77)]);
    assert!(world.resources.get_bytes_mut(5).is_none());
    assert_eq!(world.resources.schema(id).unwrap().size, 8);
}
