use ecs_core::{ComponentBuilder, ComponentValue, FieldType, World};

#[test]
fn send_and_drain_events() {
    let mut world = World::new();
    let damage_id = world.register_event(
        ComponentBuilder::new("DamageEvent")
            .field("target_id", FieldType::U32)
            .field("amount", FieldType::F32)
            .build(),
    );

    world.send_event(damage_id, &[ComponentValue::U32(5), ComponentValue::F32(12.5f32.to_bits())]);
    world.send_event(damage_id, &[ComponentValue::U32(6), ComponentValue::F32(3.0f32.to_bits())]);

    let events = world.drain_events(damage_id);
    assert_eq!(events.len(), 2);
    assert_eq!(events[0][0].as_u32(), Some(5));
    assert_eq!(events[0][1].as_f32().map(f32::from_bits), Some(12.5));
    assert_eq!(events[1][0].as_u32(), Some(6));
}

#[test]
fn drain_clears_the_queue() {
    let mut world = World::new();
    let id = world.register_event(ComponentBuilder::new("SpawnEvent").field("entity_id", FieldType::U32).build());
    world.send_event(id, &[ComponentValue::U32(1)]);

    assert_eq!(world.drain_events(id).len(), 1);
    assert_eq!(world.drain_events(id).len(), 0, "second drain in the same frame must be empty");
}

#[test]
fn read_does_not_clear_the_queue() {
    let mut world = World::new();
    let id = world.register_event(ComponentBuilder::new("SoundEvent").field("sound_id", FieldType::U32).build());
    world.send_event(id, &[ComponentValue::U32(9)]);

    assert_eq!(world.read_events(id).len(), 1);
    assert_eq!(world.read_events(id).len(), 1, "read() must be non-destructive");
    assert_eq!(world.drain_events(id).len(), 1, "the event is still there for the final drain");
}

#[test]
fn events_fired_earlier_in_the_frame_are_visible_to_later_systems() {
    let mut world = World::new();
    let death_id = world.register_event(ComponentBuilder::new("DeathEvent").field("entity_id", FieldType::U32).build());

    world.send_event(death_id, &[ComponentValue::U32(42)]);

    let seen = world.read_events(death_id);
    assert_eq!(seen.len(), 1);
    assert_eq!(seen[0][0].as_u32(), Some(42));
}

#[test]
fn sending_to_unregistered_event_is_a_silent_no_op() {
    let mut world = World::new();
    world.send_event(999, &[ComponentValue::U32(1)]);
    assert_eq!(world.drain_events(999).len(), 0);
}

#[test]
fn events_count_clear_and_clear_all() {
    let mut world = World::new();
    let a = world.register_event(ComponentBuilder::new("A").field("v", FieldType::U8).build());
    let b = world.register_event(ComponentBuilder::new("B").field("v", FieldType::U8).build());
    world.send_event(a, &[ComponentValue::U8(1)]);
    world.send_event(a, &[ComponentValue::U8(2)]);
    world.send_event(b, &[ComponentValue::U8(3)]);
    assert_eq!(world.events.count(a), 2);
    assert_eq!(world.events.count(999), 0);
    world.events.clear(a);
    assert_eq!(world.events.count(a), 0);
    assert_eq!(world.events.count(b), 1);
    world.events.clear_all();
    assert_eq!(world.events.count(b), 0);
    assert_eq!(world.event_id("B"), Some(b));
    assert_eq!(world.event_id("C"), None);
    assert_eq!(world.register_event(ComponentBuilder::new("A").field("v", FieldType::U8).build()), a);
    assert_eq!(world.events.schema(b).unwrap().size, 1);
}
