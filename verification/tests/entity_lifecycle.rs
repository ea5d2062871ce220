use ecs_core::{ComponentBuilder, ComponentInstance, ComponentValue, EcsError, Entity, EntityManager, FieldType, World};

fn f32v(x: f32) -> ComponentValue {
    ComponentValue::F32(x.to_bits())
}

fn make_world() -> (World, u32, u32) {
    let mut world = World::new();
    let pos = world.register_component(
        ComponentBuilder::new("Position").field("x", FieldType::F32).field("y", FieldType::F32).build()
    );
    let vel = world.register_component(
        ComponentBuilder::new("Velocity").field("x", FieldType::F32).field("y", FieldType::F32).build()
    );
    (world, pos, vel)
}

#[test]
fn spawn_and_alive() {
    let (mut world, pos, _) = make_world();
    let e = world.spawn(vec![ComponentInstance::new(pos, vec![f32v(1.0), f32v(2.0)])]);
    assert!(world.is_alive(e));
    assert_eq!(world.entity_count(), 1);
}

#[test]
fn despawn_entity() {
    let (mut world, pos, _) = make_world();
    let e = world.spawn(vec![ComponentInstance::new(pos, vec![f32v(0.0), f32v(0.0)])]);
    assert!(world.is_alive(e));
    world.despawn(e).unwrap();
    assert!(!world.is_alive(e));
    assert_eq!(world.entity_count(), 0);
}

#[test]
fn despawn_dead_entity_returns_error() {
    let (mut world, pos, _) = make_world();
    let e = world.spawn(vec![ComponentInstance::new(pos, vec![f32v(0.0), f32v(0.0)])]);
    world.despawn(e).unwrap();
    assert!(matches!(world.despawn(e), Err(EcsError::EntityNotFound)));
}

#[test]
fn entity_id_reused_after_despawn() {
    let (mut world, pos, _) = make_world();
    let e1 = world.spawn(vec![ComponentInstance::new(pos, vec![f32v(0.0), f32v(0.0)])]);
    world.despawn(e1).unwrap();
    let e2 = world.spawn(vec![ComponentInstance::new(pos, vec![f32v(1.0), f32v(2.0)])]);
    assert_eq!(e1.id, e2.id);
    assert_ne!(e1.generation, e2.generation);
}

#[test]
fn despawn_swap_removes_last_entity() {
    let (mut world, pos, _) = make_world();
    let e1 = world.spawn(vec![ComponentInstance::new(pos, vec![f32v(1.0), f32v(2.0)])]);
    let e2 = world.spawn(vec![ComponentInstance::new(pos, vec![f32v(3.0), f32v(4.0)])]);
    let e3 = world.spawn(vec![ComponentInstance::new(pos, vec![f32v(5.0), f32v(6.0)])]);

    world.despawn(e2).unwrap();
    assert!(!world.is_alive(e2));
    assert!(world.is_alive(e1));
    assert!(world.is_alive(e3));

    let vals = world.get_component(e3, pos).unwrap();
    assert_eq!(f32::from_bits(vals[0].as_f32().unwrap()), 5.0);
    assert_eq!(f32::from_bits(vals[1].as_f32().unwrap()), 6.0);
}

#[test]
fn alive_count_accurate() {
    let (mut world, pos, _) = make_world();
    assert_eq!(world.entity_count(), 0);
    let e1 = world.spawn(vec![ComponentInstance::new(pos, vec![f32v(0.0), f32v(0.0)])]);
    let e2 = world.spawn(vec![ComponentInstance::new(pos, vec![f32v(0.0), f32v(0.0)])]);
    assert_eq!(world.entity_count(), 2);
    world.despawn(e1).unwrap();
    assert_eq!(world.entity_count(), 1);
    world.despawn(e2).unwrap();
    assert_eq!(world.entity_count(), 0);
}

#[test]
fn entity_manager_recycles_most_recently_freed_first() {
    let mut m = EntityManager::new();
    let a = m.create();
    let b = m.create();
    let c = m.create();
    assert_eq!((a.id, b.id, c.id), (0, 1, 2));
    m.destroy(a);
    m.destroy(c);
    assert_eq!(m.alive_count(), 1);
    let d = m.create();
    assert_eq!(d, Entity { id: 2, generation: 1 });
    let e = m.create();
    assert_eq!(e, Entity { id: 0, generation: 1 });
    assert_eq!(m.total_count(), 3);
    assert_eq!(m.generation_of(7), u32::MAX);
    assert!(!m.is_alive(a));
    assert!(m.is_alive(e));
}

#[test]
fn destroying_a_stale_handle_changes_nothing() {
    let mut m = EntityManager::new();
    let a = m.create();
    m.destroy(a);
    let count = m.alive_count();
    m.destroy(a);
    m.destroy(Entity { id: 99, generation: 0 });
    assert_eq!(m.alive_count(), count);
    assert_eq!(m.generation_of(0), 1);
}

#[test]
fn entity_display_and_invalid() {
    let e = Entity { id: 3, generation: 7 };
    assert_eq!(e.to_string(), "Entity(3, gen=7)");
    let inv = Entity::invalid();
    assert_eq!((inv.id, inv.generation), (u32::MAX, u32::MAX));
}

#[test]
fn freed_slot_handles_are_dead() {
    let mut world = World::new();
    let e = world.spawn_empty();
    world.despawn(e).unwrap();
    let next = Entity { id: e.id, generation: e.generation + 1 };
    assert!(!world.is_alive(next));
    assert!(!world.is_alive(e));
    assert_eq!(world.entity_count(), 0);
    assert_eq!(world.despawn(next), Err(EcsError::EntityNotFound));
    let again = world.spawn_empty();
    assert_eq!(again, next);
    assert!(world.is_alive(again));
    assert!(!world.is_alive(e));
    assert_eq!(world.entity_count(), 1);
}

#[test]
fn manager_never_reports_unissued_handle_alive() {
    let mut m = EntityManager::new();
    let e = m.create();
    m.destroy(e);
    assert!(!m.is_alive(e));
    assert!(!m.is_alive(Entity { id: e.id, generation: e.generation + 1 }));
    assert_eq!(m.alive_count(), 0);
    m.destroy(Entity { id: e.id, generation: e.generation + 1 });
    assert_eq!(m.alive_count(), 0);
    let f = m.create();
    assert_eq!(f, Entity { id: e.id, generation: e.generation + 1 });
    assert!(m.is_alive(f));
    assert_eq!(m.alive_count(), 1);
}
