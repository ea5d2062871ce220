use ecs_core::{ComponentBuilder, ComponentInstance, ComponentValue, Entity, FieldType, Schedule, World};

fn world_with_owner() -> (World, u32) {
    let mut world = World::new();
    let owner = world.register_component(
        ComponentBuilder::new("Owner").field("id", FieldType::U32).field("generation", FieldType::U32).build(),
    );
    (world, owner)
}

#[test]
fn add_component_raw_attaches_relation() {
    let (mut world, owner) = world_with_owner();
    let e = world.spawn_empty();
    let bytes = [7u8, 0, 0, 0, 2, 0, 0, 0];
    assert!(world.add_component_raw(e, owner, &bytes));
    assert!(world.has_component(e, owner));
    assert_eq!(world.get_component(e, owner).unwrap(), vec![ComponentValue::U32(7), ComponentValue::U32(2)]);
    assert_eq!(world.get_component_raw(e, owner), bytes.to_vec());
}

#[test]
fn add_component_raw_rejects_wrong_size_and_unknown_component() {
    let (mut world, owner) = world_with_owner();
    let e = world.spawn_empty();
    assert!(!world.add_component_raw(e, owner, &[1, 2, 3]));
    assert!(!world.add_component_raw(e, owner + 5, &[0; 8]));
    assert!(!world.has_component(e, owner));
}

#[test]
fn add_component_raw_on_dead_entity_is_false() {
    let (mut world, owner) = world_with_owner();
    let e = world.spawn_empty();
    world.despawn(e).unwrap();
    assert!(!world.add_component_raw(e, owner, &[0; 8]));
}

#[test]
fn set_component_raw_overwrites_only_present_components() {
    let (mut world, owner) = world_with_owner();
    let e = world.spawn_empty();
    assert!(!world.set_component_raw(e, owner, &[0; 8]));
    world.spawn(vec![]);
    let f = world.spawn(vec![ComponentInstance::new(owner, vec![ComponentValue::U32(1), ComponentValue::U32(1)])]);
    assert!(world.set_component_raw(f, owner, &[9, 0, 0, 0, 4, 0, 0, 0]));
    assert_eq!(world.get_component(f, owner).unwrap(), vec![ComponentValue::U32(9), ComponentValue::U32(4)]);
    assert!(!world.set_component_raw(f, owner, &[9, 0, 0, 0]));
}

#[test]
fn raw_bool_bytes_are_normalised() {
    let mut world = World::new();
    let flag = world.register_component(ComponentBuilder::new("Flag").field("on", FieldType::Bool).build());
    let e = world.spawn_empty();
    assert!(world.add_component_raw(e, flag, &[5]));
    assert_eq!(world.get_component_raw(e, flag), vec![1u8]);
}

#[test]
fn get_component_raw_is_empty_without_the_component() {
    let (world, owner) = world_with_owner();
    assert!(world.get_component_raw(Entity { id: 3, generation: 0 }, owner).is_empty());
    assert!(world.get_component_raw(Entity { id: 0, generation: 0 }, 42).is_empty());
}

#[test]
fn stats_json_counts_entities_archetypes_components() {
    let (mut world, owner) = world_with_owner();
    assert_eq!(world.stats_json(), r#"{"entities":0,"archetypes":0,"components":1}"#);
    world.spawn(vec![ComponentInstance::new(owner, vec![ComponentValue::U32(1), ComponentValue::U32(0)])]);
    world.spawn_empty();
    assert_eq!(world.stats_json(), r#"{"entities":2,"archetypes":1,"components":1}"#);
}

#[test]
fn stage_names_json_lists_stages_in_order() {
    let schedule = Schedule::standard_game_schedule();
    assert_eq!(
        schedule.stage_names_json(),
        r#"["Startup","PreFrame","Input","PrePhysics","Physics","PostPhysics","AI","Gameplay","Animation","Audio","Render","PostFrame"]"#
    );
    assert_eq!(Schedule::new().stage_names_json(), "[]");
}

#[test]
fn interleaved_xy_of_two_float_component() {
    let mut world = World::new();
    let pos = world.register_component(
        ComponentBuilder::new("Position").field("x", FieldType::F32).field("y", FieldType::F32).build(),
    );
    let tag = world.register_component(ComponentBuilder::new("Tag").field("v", FieldType::U8).build());
    let f = |x: f32| ComponentValue::F32(x.to_bits());
    world.spawn(vec![ComponentInstance::new(pos, vec![f(1.0), f(2.0)])]);
    world.spawn(vec![ComponentInstance::new(pos, vec![f(3.0), f(4.0)]), ComponentInstance::new(tag, vec![ComponentValue::U8(1)])]);
    let out: Vec<f32> = world.get_f32x2_interleaved(pos).into_iter().map(f32::from_bits).collect();
    assert_eq!(out, vec![1.0, 2.0, 3.0, 4.0]);
    assert!(world.get_f32x2_interleaved(99).is_empty());
}

#[test]
fn instance_fits_checks_registration_count_and_types() {
    let (world, owner) = world_with_owner();
    let good = ComponentInstance::new(owner, vec![ComponentValue::U32(1), ComponentValue::U32(2)]);
    let short = ComponentInstance::new(owner, vec![ComponentValue::U32(1)]);
    let wrong = ComponentInstance::new(owner, vec![ComponentValue::U32(1), ComponentValue::I32(2)]);
    let unknown = ComponentInstance::new(owner + 1, vec![ComponentValue::U32(1), ComponentValue::U32(2)]);
    assert!(world.instance_fits(&good));
    assert!(!world.instance_fits(&short));
    assert!(!world.instance_fits(&wrong));
    assert!(!world.instance_fits(&unknown));
    assert!(FieldType::Bool.accepts(&ComponentValue::Bool(true)));
    assert!(!FieldType::U8.accepts(&ComponentValue::I8(1)));
}

#[test]
fn registered_counts_of_resources_and_events() {
    let mut world = World::new();
    assert_eq!(world.resources.registered_count(), 0);
    world.register_resource(ComponentBuilder::new("Time").field("t", FieldType::F32).build());
    world.register_resource(ComponentBuilder::new("Time").field("t", FieldType::F32).build());
    assert_eq!(world.resources.registered_count(), 1);
    world.register_event(ComponentBuilder::new("Hit").field("n", FieldType::U8).build());
    assert_eq!(world.events.registered_count(), 1);
}
