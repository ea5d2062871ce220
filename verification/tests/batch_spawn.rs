use ecs_core::{ComponentBuilder, ComponentInstance, ComponentValue, FieldType, World};

fn f32v(x: f32) -> ComponentValue {
    ComponentValue::F32(x.to_bits())
}

#[test]
fn spawn_batch_correct_count() {
    let mut world = World::new();
    let pos = world.register_component(
        ComponentBuilder::new("Position").field("x", FieldType::F32).field("y", FieldType::F32).build()
    );

    let entities = world.spawn_batch(vec![
        ComponentInstance::new(pos, vec![f32v(0.0), f32v(0.0)]),
    ], 1000);

    assert_eq!(entities.len(), 1000);
    assert_eq!(world.entity_count(), 1000);

    let result = world.query(&[pos]);
    assert_eq!(result.total_rows(), 1000);
}

#[test]
fn spawn_batch_all_alive() {
    let mut world = World::new();
    let pos = world.register_component(
        ComponentBuilder::new("Position").field("x", FieldType::F32).field("y", FieldType::F32).build()
    );

    let entities = world.spawn_batch(vec![
        ComponentInstance::new(pos, vec![f32v(1.0), f32v(2.0)]),
    ], 100);

    for e in &entities {
        assert!(world.is_alive(*e));
    }
}

#[test]
fn spawn_large_batch_performance() {
    let mut world = World::new();
    let pos = world.register_component(
        ComponentBuilder::new("Position").field("x", FieldType::F32).field("y", FieldType::F32).build()
    );
    let vel = world.register_component(
        ComponentBuilder::new("Velocity").field("x", FieldType::F32).field("y", FieldType::F32).build()
    );

    world.spawn_batch(vec![
        ComponentInstance::new(pos, vec![f32v(0.0), f32v(0.0)]),
        ComponentInstance::new(vel, vec![f32v(1.0), f32v(0.0)]),
    ], 100_000);

    assert_eq!(world.entity_count(), 100_000);
    let result = world.query(&[pos, vel]);
    assert_eq!(result.total_rows(), 100_000);
}

#[test]
fn spawn_batch_spills_into_a_second_chunk_and_keeps_values() {
    let mut world = World::new();
    let hp = world.register_component(ComponentBuilder::new("Hp").field("v", FieldType::U32).build());
    let entities = world.spawn_batch(vec![ComponentInstance::new(hp, vec![ComponentValue::U32(7)])], 16_385);
    assert_eq!(world.query_column(hp).len(), 2);
    let last = entities[16_384];
    assert_eq!(world.get(last, hp).unwrap()[0].as_u32(), Some(7));
    let mut ids: Vec<u32> = entities.iter().map(|e| e.id).collect();
    ids.sort();
    ids.dedup();
    assert_eq!(ids.len(), 16_385);
}

#[test]
fn spawn_batch_of_zero_creates_the_archetype_only() {
    let mut world = World::new();
    let hp = world.register_component(ComponentBuilder::new("Hp").field("v", FieldType::U32).build());
    let entities = world.spawn_batch(vec![ComponentInstance::new(hp, vec![ComponentValue::U32(1)])], 0);
    assert!(entities.is_empty());
    assert_eq!(world.archetype_count(), 1);
    assert_eq!(world.entity_count(), 0);
}

#[test]
fn spawns_grow_the_entity_count() {
    let mut world = World::new();
    let pos = world.register_component(
        ComponentBuilder::new("Position").field("x", FieldType::F32).field("y", FieldType::F32).build()
    );
    let one = world.spawn(vec![ComponentInstance::new(pos, vec![f32v(100.0), f32v(200.0)])]);
    assert!(world.is_alive(one));
    assert_eq!(world.entity_count(), 1);
    let batch = world.spawn_batch(vec![ComponentInstance::new(pos, vec![f32v(0.0), f32v(0.0)])], 5);
    assert_eq!(batch.len(), 5);
    assert_eq!(world.entity_count(), 6);
    assert!(batch.iter().all(|e| world.is_alive(*e)));
}
