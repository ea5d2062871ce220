use ecs_core::{ComponentBuilder, ComponentInstance, ComponentValue, FieldType, World};

#[test]
fn get_bool_set_bool_round_trip() {
    let mut world = World::new();
    let alive_id = world.register_component(ComponentBuilder::new("Alive").field("value", FieldType::Bool).build());

    let e1 = world.spawn_empty();
    let e2 = world.spawn_empty();

    world.add_component(e1, ComponentInstance::new(alive_id, vec![ComponentValue::Bool(true)])).unwrap();
    world.add_component(e2, ComponentInstance::new(alive_id, vec![ComponentValue::Bool(false)])).unwrap();

    assert_eq!(world.read_component_byte(e1, alive_id, 0).map(|b| b != 0), Some(true));
    assert_eq!(world.read_component_byte(e2, alive_id, 0).map(|b| b != 0), Some(false));

    assert!(world.patch_component(e2, alive_id, 0, &[1]));
    assert_eq!(world.read_component_byte(e2, alive_id, 0).map(|b| b != 0), Some(true));

    // missing-component reads give nothing, which the JS API reads as false
    let e3 = world.spawn_empty();
    assert_eq!(world.read_component_byte(e3, alive_id, 0), None);
}

#[test]
fn query_count_wasm_wrapper_matches_inner_logic() {
    let mut world = World::new();
    let tag_id = world.register_component(ComponentBuilder::new("Tag").field("value", FieldType::U32).build());
    for _ in 0..3 {
        world.spawn(vec![ComponentInstance::new(tag_id, vec![ComponentValue::U32(1)])]);
    }
    assert_eq!(world.query_match_count(&[tag_id]), 3);
    assert_eq!(world.query_match_count(&[999_999]), 0);
}
