use ecs_core::{ComponentBuilder, ComponentInstance, ComponentValue, EcsError, FieldType, World};

fn f32v(x: f32) -> ComponentValue {
    ComponentValue::F32(x.to_bits())
}

fn world_with_pos_vel() -> (World, u32, u32) {
    let mut world = World::new();
    let pos = world.register_component(
        ComponentBuilder::new("Position").field("x", FieldType::F32).field("y", FieldType::F32).build()
    );
    let vel = world.register_component(
        ComponentBuilder::new("Velocity").field("x", FieldType::F32).field("y", FieldType::F32).build()
    );
    (world, pos, vel)
}

#[test]
fn set_component_updates_value() {
    let (mut world, pos, _) = world_with_pos_vel();
    let e = world.spawn(vec![ComponentInstance::new(pos, vec![f32v(1.0), f32v(2.0)])]);

    world.set_component(e, ComponentInstance::new(pos, vec![f32v(99.0), f32v(88.0)])).unwrap();

    let vals = world.get_component(e, pos).unwrap();
    assert_eq!(f32::from_bits(vals[0].as_f32().unwrap()), 99.0);
    assert_eq!(f32::from_bits(vals[1].as_f32().unwrap()), 88.0);
}

#[test]
fn add_component_migrates_archetype() {
    let (mut world, pos, vel) = world_with_pos_vel();
    let e = world.spawn(vec![ComponentInstance::new(pos, vec![f32v(1.0), f32v(2.0)])]);

    assert!(!world.has_component(e, vel));
    assert_eq!(world.archetype_count(), 1);

    world.add_component(e, ComponentInstance::new(vel, vec![f32v(3.0), f32v(4.0)])).unwrap();

    assert!(world.has_component(e, pos));
    assert!(world.has_component(e, vel));
    assert_eq!(world.archetype_count(), 2);

    let pos_vals = world.get_component(e, pos).unwrap();
    assert_eq!(f32::from_bits(pos_vals[0].as_f32().unwrap()), 1.0);

    let vel_vals = world.get_component(e, vel).unwrap();
    assert_eq!(f32::from_bits(vel_vals[0].as_f32().unwrap()), 3.0);
}

#[test]
fn remove_component_migrates_archetype() {
    let (mut world, pos, vel) = world_with_pos_vel();
    let e = world.spawn(vec![
        ComponentInstance::new(pos, vec![f32v(10.0), f32v(20.0)]),
        ComponentInstance::new(vel, vec![f32v(1.0), f32v(2.0)]),
    ]);

    assert!(world.has_component(e, vel));
    world.remove_component(e, vel).unwrap();
    assert!(!world.has_component(e, vel));
    assert!(world.has_component(e, pos));

    let pos_vals = world.get_component(e, pos).unwrap();
    assert_eq!(f32::from_bits(pos_vals[0].as_f32().unwrap()), 10.0);
}

#[test]
fn remove_missing_component_returns_error() {
    let (mut world, pos, vel) = world_with_pos_vel();
    let e = world.spawn(vec![ComponentInstance::new(pos, vec![f32v(1.0), f32v(2.0)])]);
    assert!(matches!(world.remove_component(e, vel), Err(EcsError::ComponentNotFound(_))));
}

#[test]
fn add_component_on_dead_entity_returns_error() {
    let (mut world, pos, vel) = world_with_pos_vel();
    let e = world.spawn(vec![ComponentInstance::new(pos, vec![f32v(0.0), f32v(0.0)])]);
    world.despawn(e).unwrap();
    assert!(matches!(
        world.add_component(e, ComponentInstance::new(vel, vec![f32v(1.0), f32v(2.0)])),
        Err(EcsError::EntityNotFound)
    ));
}

#[test]
fn get_f32x2_mut_modifies_in_place() {
    let (mut world, pos, _) = world_with_pos_vel();
    let e = world.spawn(vec![ComponentInstance::new(pos, vec![f32v(5.0), f32v(6.0)])]);

    {
        let mut view = world.get_f32x2_mut(e, pos).unwrap();
        view.set_x(100.0f32.to_bits());
        view.set_y(200.0f32.to_bits());
    }

    let view = world.get_f32x2(e, pos).unwrap();
    assert_eq!(f32::from_bits(view.x()), 100.0);
    assert_eq!(f32::from_bits(view.y()), 200.0);
}

#[test]
fn add_unregistered_component_is_an_error_and_changes_nothing() {
    let (mut world, pos, _) = world_with_pos_vel();
    let e = world.spawn(vec![ComponentInstance::new(pos, vec![f32v(1.0), f32v(2.0)])]);
    assert!(matches!(
        world.add_component(e, ComponentInstance::new(77, vec![])),
        Err(EcsError::ComponentNotRegistered(77))
    ));
    assert_eq!(world.archetype_count(), 1);
    assert!(world.has_component(e, pos));
}

#[test]
fn set_component_errors() {
    let (mut world, pos, vel) = world_with_pos_vel();
    let e = world.spawn(vec![ComponentInstance::new(pos, vec![f32v(1.0), f32v(2.0)])]);
    assert!(matches!(
        world.set_component(e, ComponentInstance::new(vel, vec![f32v(0.0), f32v(0.0)])),
        Err(EcsError::ComponentNotFound(_))
    ));
    assert!(matches!(
        world.set_component(e, ComponentInstance::new(55, vec![])),
        Err(EcsError::ComponentNotRegistered(55))
    ));
    let empty = world.spawn_empty();
    assert!(matches!(
        world.set_component(empty, ComponentInstance::new(pos, vec![f32v(0.0), f32v(0.0)])),
        Err(EcsError::ComponentNotFound(_))
    ));
    world.despawn(e).unwrap();
    assert!(matches!(
        world.set_component(e, ComponentInstance::new(pos, vec![f32v(0.0), f32v(0.0)])),
        Err(EcsError::EntityNotFound)
    ));
}

#[test]
fn add_existing_component_overwrites_in_place() {
    let (mut world, pos, _) = world_with_pos_vel();
    let e = world.spawn(vec![ComponentInstance::new(pos, vec![f32v(1.0), f32v(2.0)])]);
    world.add_component(e, ComponentInstance::new(pos, vec![f32v(7.0), f32v(8.0)])).unwrap();
    assert_eq!(world.archetype_count(), 1);
    assert_eq!(world.get(e, pos).unwrap(), vec![f32v(7.0), f32v(8.0)]);
}

#[test]
fn removing_the_last_component_leaves_the_entity_alive_without_storage() {
    let (mut world, pos, vel) = world_with_pos_vel();
    let e = world.spawn(vec![ComponentInstance::new(pos, vec![f32v(1.0), f32v(2.0)])]);
    world.remove_component(e, pos).unwrap();
    assert!(world.is_alive(e));
    assert!(!world.has_component(e, pos));
    assert!(world.get_component_bytes(e, pos).is_none());
    world.add_component(e, ComponentInstance::new(vel, vec![f32v(3.0), f32v(4.0)])).unwrap();
    assert_eq!(world.get(e, vel).unwrap(), vec![f32v(3.0), f32v(4.0)]);
}

#[test]
fn migration_keeps_the_swapped_entity_readable() {
    let (mut world, pos, vel) = world_with_pos_vel();
    let a = world.spawn(vec![ComponentInstance::new(pos, vec![f32v(1.0), f32v(1.0)])]);
    let b = world.spawn(vec![ComponentInstance::new(pos, vec![f32v(2.0), f32v(2.0)])]);
    let c = world.spawn(vec![ComponentInstance::new(pos, vec![f32v(3.0), f32v(3.0)])]);
    world.add_component(a, ComponentInstance::new(vel, vec![f32v(9.0), f32v(9.0)])).unwrap();
    assert_eq!(world.get(a, pos).unwrap(), vec![f32v(1.0), f32v(1.0)]);
    assert_eq!(world.get(b, pos).unwrap(), vec![f32v(2.0), f32v(2.0)]);
    assert_eq!(world.get(c, pos).unwrap(), vec![f32v(3.0), f32v(3.0)]);
    assert_eq!(world.total_entities_in_archetypes(), 3);
}

#[test]
fn field_level_reads_and_patches() {
    let mut world = World::new();
    let st = world.register_component(
        ComponentBuilder::new("S").field("n", FieldType::U32).field("flag", FieldType::Bool).build(),
    );
    let e = world.spawn(vec![ComponentInstance::new(st, vec![ComponentValue::U32(41), ComponentValue::Bool(false)])]);
    assert_eq!(world.read_component_u32(e, st, 0), Some(41));
    assert_eq!(world.read_component_u32(e, st, 2), None);
    assert_eq!(world.read_component_byte(e, st, 4), Some(0));
    assert!(world.patch_component(e, st, 0, &42u32.to_le_bytes()));
    assert!(world.patch_component(e, st, 4, &[1]));
    assert!(!world.patch_component(e, st, 4, &[0, 0]));
    assert_eq!(world.get(e, st).unwrap(), vec![ComponentValue::U32(42), ComponentValue::Bool(true)]);
}

#[test]
fn remove_from_entity_without_components_fails() {
    let (mut world, pos, _vel) = world_with_pos_vel();
    let e = world.spawn_empty();
    assert_eq!(world.remove_component(e, pos), Err(EcsError::ComponentNotFound(pos)));
    assert!(world.is_alive(e));
    assert_eq!(world.archetype_count(), 0);
}

#[test]
fn add_to_dead_entity_with_wrong_values_fails() {
    let (mut world, pos, _vel) = world_with_pos_vel();
    let e = world.spawn(vec![ComponentInstance::new(pos, vec![f32v(1.0), f32v(2.0)])]);
    world.despawn(e).unwrap();
    let bad = ComponentInstance::new(pos, vec![ComponentValue::U32(7)]);
    assert_eq!(world.add_component(e, bad), Err(EcsError::EntityNotFound));
    let live = world.spawn_empty();
    assert_eq!(
        world.add_component(live, ComponentInstance::new(99, vec![f32v(1.0)])),
        Err(EcsError::ComponentNotRegistered(99))
    );
}

#[test]
fn archetypes_are_reused_per_component_set() {
    let (mut world, pos, vel) = world_with_pos_vel();
    let e1 = world.spawn(vec![ComponentInstance::new(pos, vec![f32v(1.0), f32v(2.0)])]);
    assert_eq!(world.archetype_count(), 1);
    let e2 = world.spawn(vec![ComponentInstance::new(pos, vec![f32v(3.0), f32v(4.0)])]);
    assert_eq!(world.archetype_count(), 1);
    assert_eq!(world.add_component(e1, ComponentInstance::new(vel, vec![f32v(5.0), f32v(6.0)])), Ok(()));
    assert_eq!(world.archetype_count(), 2);
    assert_eq!(world.add_component(e2, ComponentInstance::new(vel, vec![f32v(7.0), f32v(8.0)])), Ok(()));
    assert_eq!(world.archetype_count(), 2);
    assert_eq!(world.remove_component(e2, vel), Ok(()));
    assert_eq!(world.archetype_count(), 2);
    assert_eq!(world.total_entities_in_archetypes(), 2);
    assert_eq!(world.get_component(e1, vel), Some(vec![f32v(5.0), f32v(6.0)]));
    assert_eq!(world.get_component(e2, pos), Some(vec![f32v(3.0), f32v(4.0)]));
}
