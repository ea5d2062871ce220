use ecs_core::{ComponentBuilder, ComponentInstance, ComponentValue, EntityManager, Events, FieldType, Resources, World};

fn two_floats(world: &mut World, name: &str) -> u32 {
    world.register_component(ComponentBuilder::new(name).field("x", FieldType::F32).field("y", FieldType::F32).build())
}

fn f(x: f32) -> ComponentValue {
    ComponentValue::F32(x.to_bits())
}

#[test]
fn get_after_add_and_set_gives_written_values() {
    let mut world = World::new();
    let pos = two_floats(&mut world, "Position");
    let hp = world.register_component(ComponentBuilder::new("Hp").field("v", FieldType::I16).build());
    let e = world.spawn(vec![ComponentInstance::new(pos, vec![f(1.5), f(-2.0)])]);
    assert_eq!(world.get_component(e, pos).unwrap(), vec![f(1.5), f(-2.0)]);
    world.add_component(e, ComponentInstance::new(hp, vec![ComponentValue::I16(-7)])).unwrap();
    assert_eq!(world.get_component(e, hp).unwrap(), vec![ComponentValue::I16(-7)]);
    world.set_component(e, ComponentInstance::new(hp, vec![ComponentValue::I16(300)])).unwrap();
    assert_eq!(world.get_component(e, hp).unwrap(), vec![ComponentValue::I16(300)]);
    assert_eq!(world.get_component(e, pos).unwrap(), vec![f(1.5), f(-2.0)]);
}

#[test]
fn remove_keeps_the_other_components() {
    let mut world = World::new();
    let pos = two_floats(&mut world, "Position");
    let vel = two_floats(&mut world, "Velocity");
    let e = world.spawn(vec![
        ComponentInstance::new(pos, vec![f(1.0), f(2.0)]),
        ComponentInstance::new(vel, vec![f(3.0), f(4.0)]),
    ]);
    world.remove_component(e, vel).unwrap();
    assert!(!world.has_component(e, vel));
    assert_eq!(world.get_component(e, pos).unwrap(), vec![f(1.0), f(2.0)]);
}

#[test]
fn recycled_slot_gets_bumped_generation() {
    let mut m = EntityManager::new();
    let a = m.create();
    let _b = m.create();
    m.destroy(a);
    let c = m.create();
    assert_eq!(c.id, a.id);
    assert_eq!(c.generation, a.generation + 1);
    assert!(m.is_alive(c));
    assert!(!m.is_alive(a));
}

#[test]
fn resource_read_back_after_set() {
    let mut res = Resources::new();
    let time = res.register(ComponentBuilder::new("Time").field("elapsed", FieldType::F32).field("frame", FieldType::U64).build());
    res.set(time, &[f(0.25), ComponentValue::U64(9)]).unwrap();
    assert_eq!(res.get(time).unwrap(), vec![f(0.25), ComponentValue::U64(9)]);
}

#[test]
fn event_read_back_after_send() {
    let mut events = Events::new();
    let hit = events.register(ComponentBuilder::new("Hit").field("target", FieldType::U32).field("crit", FieldType::Bool).build());
    events.send(hit, &[ComponentValue::U32(4), ComponentValue::Bool(false)]);
    events.send(hit, &[ComponentValue::U32(5), ComponentValue::Bool(true)]);
    let queued = events.read(hit);
    assert_eq!(queued.len(), 2);
    assert_eq!(queued[0], vec![ComponentValue::U32(4), ComponentValue::Bool(false)]);
    assert_eq!(queued[1], vec![ComponentValue::U32(5), ComponentValue::Bool(true)]);
}

#[test]
fn query_lists_exactly_the_matching_entities() {
    let mut world = World::new();
    let pos = two_floats(&mut world, "Position");
    let vel = two_floats(&mut world, "Velocity");
    let a = world.spawn(vec![ComponentInstance::new(pos, vec![f(0.0), f(0.0)])]);
    let b = world.spawn(vec![
        ComponentInstance::new(pos, vec![f(0.0), f(0.0)]),
        ComponentInstance::new(vel, vec![f(0.0), f(0.0)]),
    ]);
    let c = world.spawn(vec![ComponentInstance::new(vel, vec![f(0.0), f(0.0)])]);
    let mut both = world.query_entity_ids(&[pos, vel]);
    both.sort();
    assert_eq!(both, vec![(b.id, b.generation)]);
    let mut with_pos = world.query_entity_ids(&[pos]);
    with_pos.sort();
    assert_eq!(with_pos, vec![(a.id, a.generation), (b.id, b.generation)]);
    let mut with_vel = world.query_entity_ids(&[vel]);
    with_vel.sort();
    assert_eq!(with_vel, vec![(b.id, b.generation), (c.id, c.generation)]);
}
