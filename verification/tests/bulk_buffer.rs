use ecs_core::{ComponentBuilder, ComponentInstance, ComponentValue, FieldType, World};

fn f32v(x: f32) -> ComponentValue {
    ComponentValue::F32(x.to_bits())
}

#[test]
fn flat_f32_buffer_round_trip() {
    let mut world = World::new();
    let pos = world.register_component(
        ComponentBuilder::new("Position").field("x", FieldType::F32).field("y", FieldType::F32).build()
    );

    world.spawn(vec![ComponentInstance::new(pos, vec![f32v(1.0), f32v(2.0)])]);
    world.spawn(vec![ComponentInstance::new(pos, vec![f32v(3.0), f32v(4.0)])]);

    let new_xs: Vec<u32> = vec![10.0f32.to_bits(), 20.0f32.to_bits()];
    world.set_flat_f32_buffer(pos, 0, &new_xs);

    let xs: Vec<f32> = world.get_flat_f32_buffer(pos).into_iter().map(f32::from_bits).collect();
    assert_eq!(xs.len(), 2);
    assert_eq!(xs[0], 10.0);
    assert_eq!(xs[1], 20.0);
}

#[test]
fn flat_f32_buffer_large() {
    let mut world = World::new();
    let pos = world.register_component(
        ComponentBuilder::new("Position").field("x", FieldType::F32).field("y", FieldType::F32).build()
    );

    world.spawn_batch(vec![
        ComponentInstance::new(pos, vec![f32v(0.0), f32v(0.0)]),
    ], 10_000);

    let buf = world.get_flat_f32_buffer(pos);
    assert_eq!(buf.len(), 10_000);
}

#[test]
fn set_flat_writes_the_second_field_and_stops_at_the_shorter_length() {
    let mut world = World::new();
    let pos = world.register_component(
        ComponentBuilder::new("Position").field("x", FieldType::F32).field("y", FieldType::F32).build()
    );
    let a = world.spawn(vec![ComponentInstance::new(pos, vec![f32v(1.0), f32v(2.0)])]);
    let b = world.spawn(vec![ComponentInstance::new(pos, vec![f32v(3.0), f32v(4.0)])]);
    world.set_flat_f32_buffer(pos, 4, &[9.0f32.to_bits()]);
    assert_eq!(world.get(a, pos).unwrap(), vec![f32v(1.0), f32v(9.0)]);
    assert_eq!(world.get(b, pos).unwrap(), vec![f32v(3.0), f32v(4.0)]);
    assert!(world.get_flat_f32_buffer(77).is_empty());
    world.set_flat_f32_buffer(77, 0, &[1]);
    assert_eq!(world.entity_count(), 2);
}
