use ecs_core::field_list::parse_schema;
use ecs_core::{Entity, World};

fn register_list(world: &mut World, name: &str, spec: &str) -> u32 {
    world.register_component(parse_schema(name, spec).ok().unwrap().build())
}

#[test]
fn add_component_raw_round_trip_entity_ref() {
    let mut world = World::new();
    // EntityRef-shaped relation: id:u32, generation:u32.
    let parent_id = register_list(&mut world, "Parent", "id:u32,generation:u32");

    let parent_entity = world.spawn_empty().id;
    let parent_gen = world.entity_manager.generation_of(parent_entity);
    let child = world.spawn_empty().id;
    let child_gen = world.entity_manager.generation_of(child);
    let child_handle = Entity { id: child, generation: child_gen };

    let mut bytes = Vec::with_capacity(8);
    bytes.extend_from_slice(&parent_entity.to_le_bytes());
    bytes.extend_from_slice(&parent_gen.to_le_bytes());

    assert!(world.add_component_raw(child_handle, parent_id, &bytes), "add_component_raw succeeds for a 2x u32 schema");

    let read_back = world.get_component_raw(child_handle, parent_id);
    assert_eq!(read_back, bytes, "get_component_raw returns exactly what was written");

    let read_id = u32::from_le_bytes(read_back[0..4].try_into().unwrap());
    let read_gen = u32::from_le_bytes(read_back[4..8].try_into().unwrap());
    assert_eq!(read_id, parent_entity);
    assert_eq!(read_gen, parent_gen);

    // overwrite via set_component_raw with a different parent
    let other_parent = world.spawn_empty().id;
    let other_gen = world.entity_manager.generation_of(other_parent);
    let mut other_bytes = Vec::with_capacity(8);
    other_bytes.extend_from_slice(&other_parent.to_le_bytes());
    other_bytes.extend_from_slice(&other_gen.to_le_bytes());
    assert!(world.set_component_raw(child_handle, parent_id, &other_bytes));
    assert_eq!(world.get_component_raw(child_handle, parent_id), other_bytes);
}

#[test]
fn add_component_raw_rejects_wrong_length() {
    let mut world = World::new();
    let id = register_list(&mut world, "Owner", "id:u32,generation:u32"); // 8 bytes
    let e = world.spawn_empty();
    assert!(!world.add_component_raw(e, id, &[0u8; 4]), "wrong byte length is rejected, not silently truncated");
    assert!(!world.has_component(e, id));
}

#[test]
fn raw_accessors_are_lenient_on_dead_entity_or_unregistered_component() {
    let mut world = World::new();
    let id = register_list(&mut world, "X", "a:u32");
    let e = world.spawn_empty();
    world.despawn(e).unwrap();

    assert!(!world.add_component_raw(e, id, &[0u8; 4]));
    assert_eq!(world.get_component_raw(e, id), Vec::<u8>::new());
    assert!(!world.set_component_raw(e, id, &[0u8; 4]));
    assert_eq!(
        world.get_component_raw(Entity { id: 0, generation: 0 }, 999_999),
        Vec::<u8>::new(),
        "unregistered component id returns empty, not a panic"
    );
}
