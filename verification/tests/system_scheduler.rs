use ecs_core::{ComponentBuilder, ComponentInstance, ComponentValue, FieldType, Schedule, Stage, System, World};

struct CounterSystem {
    name: String,
}

impl System for CounterSystem {
    fn name(&self) -> &str { &self.name }

    fn run(&self, world: &mut World) {
        let _ = world.archetype_count();
    }
}

#[test]
fn schedule_runs_all_systems() {
    let mut world = World::new();
    let pos = world.register_component(
        ComponentBuilder::new("Position").field("x", FieldType::F32).field("y", FieldType::F32).build()
    );

    world.spawn(vec![ComponentInstance::new(pos, vec![ComponentValue::F32(0.0f32.to_bits()), ComponentValue::F32(0.0f32.to_bits())])]);

    let mut stage = Stage::new("update");
    stage.add_system(CounterSystem { name: "counter_a".into() });
    stage.add_system(CounterSystem { name: "counter_b".into() });

    let mut schedule = Schedule::new();
    schedule.add_stage(stage);
    assert_eq!(schedule.system_count(), 2);

    schedule.run(&mut world);
}

struct Spawner;

impl System for Spawner {
    fn name(&self) -> &str { "spawner" }

    fn run(&self, world: &mut World) {
        world.spawn_empty();
    }
}

#[test]
fn run_stage_runs_only_the_named_stage_and_ignores_unknown_names() {
    let mut world = World::new();
    let mut schedule = Schedule::standard_game_schedule();
    schedule.add_system_to("Physics", Spawner);
    schedule.add_system_to("Gameplay", Spawner);
    schedule.add_system_to("Gameplay", Spawner);
    schedule.run_stage("Physics", &mut world);
    assert_eq!(world.entity_count(), 1);
    schedule.run_stage("Gameplay", &mut world);
    assert_eq!(world.entity_count(), 3);
    schedule.run_stage("DoesNotExist", &mut world);
    assert_eq!(world.entity_count(), 3);
    schedule.run(&mut world);
    assert_eq!(world.entity_count(), 6);
    assert_eq!(schedule.system_count(), 3);
}
