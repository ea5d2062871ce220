use ecs_core::{ComponentBuilder, ComponentInstance, ComponentValue, Entity, FieldType, World};

fn f32v(x: f32) -> ComponentValue {
    ComponentValue::F32(x.to_bits())
}

fn setup() -> (World, u32, u32, u32) {
    let mut world = World::new();
    let pos = world.register_component(
        ComponentBuilder::new("Position").field("x", FieldType::F32).field("y", FieldType::F32).build()
    );
    let vel = world.register_component(
        ComponentBuilder::new("Velocity").field("x", FieldType::F32).field("y", FieldType::F32).build()
    );
    let tag = world.register_component(
        ComponentBuilder::new("Tag").field("value", FieldType::U32).build()
    );
    (world, pos, vel, tag)
}

#[test]
fn query_multi_component() {
    let (mut world, pos, vel, _) = setup();

    world.spawn(vec![
        ComponentInstance::new(pos, vec![f32v(1.0), f32v(2.0)]),
        ComponentInstance::new(vel, vec![f32v(0.1), f32v(0.2)]),
    ]);
    world.spawn(vec![
        ComponentInstance::new(pos, vec![f32v(3.0), f32v(4.0)]),
    ]);

    let result = world.query(&[pos, vel]);
    assert_eq!(result.total_rows(), 1, "Only 1 entity has both pos+vel");
}

#[test]
fn query_exclude() {
    let (mut world, pos, vel, tag) = setup();

    world.spawn(vec![
        ComponentInstance::new(pos, vec![f32v(1.0), f32v(2.0)]),
        ComponentInstance::new(vel, vec![f32v(0.1), f32v(0.2)]),
    ]);
    world.spawn(vec![
        ComponentInstance::new(pos, vec![f32v(3.0), f32v(4.0)]),
        ComponentInstance::new(vel, vec![f32v(0.3), f32v(0.4)]),
        ComponentInstance::new(tag, vec![ComponentValue::U32(1)]),
    ]);

    let result = world.query_with_exclude(&[pos, vel], &[tag]);
    assert_eq!(result.total_rows(), 1);
}

#[test]
fn query_total_rows_correct() {
    let (mut world, pos, _, _) = setup();

    for i in 0..10 {
        world.spawn(vec![ComponentInstance::new(pos, vec![
            f32v(i as f32), f32v(0.0)
        ])]);
    }

    let result = world.query(&[pos]);
    assert_eq!(result.total_rows(), 10);
}

#[test]
fn query_column_bytes_len() {
    let (mut world, pos, _, _) = setup();

    world.spawn(vec![ComponentInstance::new(pos, vec![f32v(1.0), f32v(2.0)])]);
    world.spawn(vec![ComponentInstance::new(pos, vec![f32v(3.0), f32v(4.0)])]);

    let cols = world.query_column(pos);
    assert_eq!(cols.len(), 1);
    assert_eq!(cols[0].len(), 16);
}

#[test]
fn query_after_despawn_reduces_rows() {
    let (mut world, pos, _, _) = setup();

    let entities: Vec<Entity> = (0..5).map(|i| {
        world.spawn(vec![ComponentInstance::new(pos, vec![f32v(i as f32), f32v(0.0)])])
    }).collect();

    let result = world.query(&[pos]);
    assert_eq!(result.total_rows(), 5);

    world.despawn(entities[2]).unwrap();

    let result = world.query(&[pos]);
    assert_eq!(result.total_rows(), 4);
}

#[test]
fn query_iter_rows() {
    let (mut world, pos, _, _) = setup();

    world.spawn(vec![ComponentInstance::new(pos, vec![f32v(10.0), f32v(20.0)])]);
    world.spawn(vec![ComponentInstance::new(pos, vec![f32v(30.0), f32v(40.0)])]);

    let result = world.query(&[pos]);
    let mut xs = Vec::new();
    for (chunk, row) in result.iter_rows() {
        let bytes = chunk.columns[0].row(row);
        xs.push(f32::from_le_bytes(bytes[0..4].try_into().unwrap()));
    }
    xs.sort_by(|a, b| a.partial_cmp(b).unwrap());
    assert_eq!(xs, vec![10.0, 30.0]);
}

#[test]
fn query_columns_follow_the_requested_order() {
    let (mut world, pos, vel, _) = setup();
    world.spawn(vec![
        ComponentInstance::new(vel, vec![f32v(7.0), f32v(8.0)]),
        ComponentInstance::new(pos, vec![f32v(1.0), f32v(2.0)]),
    ]);
    let result = world.query(&[vel, pos]);
    let chunk = result.chunks[0].column(0);
    assert_eq!(f32::from_bits(chunk.read_f32_at(0, 4)), 8.0);
    assert_eq!(f32::from_bits(result.chunks[0].column(1).read_f32_at(0, 0)), 1.0);
    assert_eq!(result.chunks[0].columns[1].iter().len(), 1);
}

#[test]
fn empty_chunks_are_skipped_by_query_but_listed_by_query_column() {
    let (mut world, pos, _, _) = setup();
    let e = world.spawn(vec![ComponentInstance::new(pos, vec![f32v(1.0), f32v(2.0)])]);
    world.despawn(e).unwrap();
    assert_eq!(world.query(&[pos]).chunks.len(), 0);
    assert!(world.query(&[pos]).is_empty());
    let cols = world.query_column(pos);
    assert_eq!(cols.len(), 1);
    assert_eq!(cols[0].len(), 0);
}

#[test]
fn query_rows_match_entity_counts() {
    let (mut world, pos, vel, tag) = setup();
    for i in 0..3 {
        world.spawn(vec![ComponentInstance::new(pos, vec![f32v(i as f32), f32v(0.0)])]);
    }
    world.spawn(vec![
        ComponentInstance::new(pos, vec![f32v(9.0), f32v(9.0)]),
        ComponentInstance::new(tag, vec![ComponentValue::U32(4)]),
    ]);
    let all = world.query(&[pos]);
    assert_eq!(all.total_rows(), 4);
    assert_eq!(all.total_rows(), world.query_match_count(&[pos]));
    assert_eq!(all.iter_rows().len(), 4);
    let untagged = world.query_with_exclude(&[pos], &[tag]);
    assert_eq!(untagged.total_rows(), 3);
    assert_eq!(world.query_with_exclude(&[pos], &[vel]).total_rows(), 4);
    assert!(world.query(&[vel]).first().is_none());
    assert!(world.query(&[tag]).single().is_some());
    assert!(all.single().is_none());
}
