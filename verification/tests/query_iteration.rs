use ecs_core::{ComponentBuilder, ComponentInstance, ComponentValue, FieldType, World};

#[test]
fn iterate_position_column() {
    let mut world = World::new();

    let position = world.register_component(
        ComponentBuilder::new("Position")
            .field("x", FieldType::F32)
            .field("y", FieldType::F32)
            .build(),
    );

    world.spawn(vec![ComponentInstance::new(
        position,
        vec![ComponentValue::F32(10.0f32.to_bits()), ComponentValue::F32(20.0f32.to_bits())],
    )]);

    world.spawn(vec![ComponentInstance::new(
        position,
        vec![ComponentValue::F32(30.0f32.to_bits()), ComponentValue::F32(40.0f32.to_bits())],
    )]);

    let query = world.query(&[position]);

    let chunk = &query.chunks[0];

    let column = &chunk.columns[0];

    assert_eq!(column.len(), 2);
}

#[test]
fn query_each_mut_updates_every_chunk_row() {
    let mut world = World::new();
    let pos = world.register_component(
        ComponentBuilder::new("Position").field("x", FieldType::F32).field("y", FieldType::F32).build(),
    );
    let vel = world.register_component(
        ComponentBuilder::new("Velocity").field("x", FieldType::F32).field("y", FieldType::F32).build(),
    );
    let n = ecs_core::CHUNK_CAPACITY + 3;
    let mut entities = Vec::new();
    for i in 0..n {
        entities.push(world.spawn(vec![
            ComponentInstance::new(pos, vec![ComponentValue::F32((i as f32).to_bits()), ComponentValue::F32(0.0f32.to_bits())]),
            ComponentInstance::new(vel, vec![ComponentValue::F32(1.0f32.to_bits()), ComponentValue::F32(2.0f32.to_bits())]),
        ]));
    }
    world.query_each_mut(&[pos, vel], |row| {
        let px = f32::from_bits(row.read_f32(0, 0));
        let vx = f32::from_bits(row.read_f32(1, 0));
        row.write_f32(0, 0, (px + vx).to_bits());
    });
    for (i, e) in entities.iter().enumerate() {
        let x = f32::from_bits(world.read_component_u32(*e, pos, 0).unwrap());
        assert_eq!(x, i as f32 + 1.0);
    }
}

#[test]
fn query_each_sees_each_entity_once_with_its_bytes() {
    let mut world = World::new();
    let hp = world.register_component(ComponentBuilder::new("Hp").field("v", FieldType::U32).build());
    let tag = world.register_component(ComponentBuilder::new("Tag").field("v", FieldType::U32).build());
    let a = world.spawn(vec![ComponentInstance::new(hp, vec![ComponentValue::U32(5)])]);
    let b = world.spawn(vec![
        ComponentInstance::new(hp, vec![ComponentValue::U32(7)]),
        ComponentInstance::new(tag, vec![ComponentValue::U32(1)]),
    ]);
    let mut seen = Vec::new();
    world.query_each(&[hp], |row| {
        seen.push((row.entity, row.read_u32(0, 0)));
    });
    assert_eq!(seen, vec![(a, 5), (b, 7)]);
    let mut rows = 0usize;
    let result = world.query(&[hp]);
    result.for_each_row(|cols, r| {
        assert_eq!(cols.len(), 1);
        assert!(r < 1);
        rows += 1;
    });
    assert_eq!(rows, 2);
    let mut chunks_seen = 0usize;
    result.for_each(|chunk, r| {
        assert_eq!(chunk.rows, 1);
        assert_eq!(r, 0);
        chunks_seen += 1;
    });
    assert_eq!(chunks_seen, 2);
}
