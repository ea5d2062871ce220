use ecs_core::{CommandBuffer, ComponentBuilder, ComponentInstance, ComponentValue, FieldType, World};

fn f32v(x: f32) -> ComponentValue {
    ComponentValue::F32(x.to_bits())
}

#[test]
fn deferred_spawn_via_commands() {
    let mut world = World::new();
    let pos_id = world.register_component(
        ComponentBuilder::new("Position").field("x", FieldType::F32).field("y", FieldType::F32).build(),
    );

    let mut commands = CommandBuffer::new();
    commands.spawn(vec![ComponentInstance::new(pos_id, vec![f32v(1.0), f32v(2.0)])]);
    assert_eq!(world.entity_count(), 0, "nothing should exist before apply()");

    commands.apply(&mut world);
    assert_eq!(world.entity_count(), 1);
    assert!(commands.is_empty(), "apply() must drain the buffer");
}

#[test]
fn deferred_despawn_found_via_query_each() {
    let mut world = World::new();
    let health_id = world.register_component(ComponentBuilder::new("Health").field("value", FieldType::F32).build());

    let alive = world.spawn(vec![ComponentInstance::new(health_id, vec![f32v(50.0)])]);
    let dead = world.spawn(vec![ComponentInstance::new(health_id, vec![f32v(0.0)])]);

    let mut commands = CommandBuffer::new();
    world.query_each(&[health_id], |row| {
        if f32::from_bits(row.read_f32(0, 0)) <= 0.0 {
            commands.despawn(row.entity);
        }
    });
    commands.apply(&mut world);

    assert!(world.is_alive(alive));
    assert!(!world.is_alive(dead));
}

#[test]
fn deferred_add_remove_set_component() {
    let mut world = World::new();
    let pos_id = world.register_component(ComponentBuilder::new("Position").field("x", FieldType::F32).field("y", FieldType::F32).build());
    let vel_id = world.register_component(ComponentBuilder::new("Velocity").field("x", FieldType::F32).field("y", FieldType::F32).build());

    let e = world.spawn(vec![ComponentInstance::new(pos_id, vec![f32v(0.0), f32v(0.0)])]);

    let mut commands = CommandBuffer::new();
    commands.add_component(e, ComponentInstance::new(vel_id, vec![f32v(1.0), f32v(0.0)]));
    commands.apply(&mut world);
    assert!(world.has_component(e, vel_id));

    let mut commands = CommandBuffer::new();
    commands.set_component(e, ComponentInstance::new(pos_id, vec![f32v(9.0), f32v(9.0)]));
    commands.apply(&mut world);
    assert_eq!(world.get_component(e, pos_id).unwrap()[0].as_f32().map(f32::from_bits), Some(9.0));

    let mut commands = CommandBuffer::new();
    commands.remove_component(e, vel_id);
    commands.apply(&mut world);
    assert!(!world.has_component(e, vel_id));
}

#[test]
fn command_buffer_can_be_reused_after_apply() {
    let mut world = World::new();
    let pos_id = world.register_component(ComponentBuilder::new("Position").field("x", FieldType::F32).field("y", FieldType::F32).build());

    let mut commands = CommandBuffer::new();
    commands.spawn(vec![ComponentInstance::new(pos_id, vec![f32v(0.0), f32v(0.0)])]);
    commands.apply(&mut world);

    commands.spawn(vec![ComponentInstance::new(pos_id, vec![f32v(1.0), f32v(1.0)])]);
    commands.apply(&mut world);

    assert_eq!(world.entity_count(), 2);
}

#[test]
fn commands_apply_in_recording_order() {
    let mut world = World::new();
    let tag = world.register_component(ComponentBuilder::new("Tag").field("v", FieldType::U32).build());
    let e = world.spawn(vec![ComponentInstance::new(tag, vec![ComponentValue::U32(1)])]);
    let mut commands = CommandBuffer::new();
    commands.set_component(e, ComponentInstance::new(tag, vec![ComponentValue::U32(2)]));
    commands.set_component(e, ComponentInstance::new(tag, vec![ComponentValue::U32(3)]));
    assert_eq!(commands.len(), 2);
    commands.apply(&mut world);
    assert_eq!(world.get(e, tag).unwrap()[0].as_u32(), Some(3));
    assert_eq!(commands.len(), 0);
}

#[test]
fn spawn_then_despawn_before_any_component_is_added() {
    let mut world = World::new();
    let e = world.spawn_empty();
    let mut commands = CommandBuffer::new();
    commands.despawn(e);
    commands.remove_component(e, 0);
    commands.apply(&mut world);
    assert!(!world.is_alive(e));
    assert_eq!(world.entity_count(), 0);
}

#[test]
fn failed_commands_are_ignored() {
    let mut world = World::new();
    let tag = world.register_component(ComponentBuilder::new("Tag").field("v", FieldType::U32).build());
    let e = world.spawn(vec![ComponentInstance::new(tag, vec![ComponentValue::U32(1)])]);
    world.despawn(e).unwrap();
    let mut commands = CommandBuffer::new();
    commands.despawn(e);
    commands.set_component(e, ComponentInstance::new(tag, vec![ComponentValue::U32(5)]));
    commands.add_component(e, ComponentInstance::new(tag, vec![ComponentValue::U32(5)]));
    commands.remove_component(e, tag);
    commands.apply(&mut world);
    assert_eq!(world.entity_count(), 0);
}
