use ecs_core::{Schedule, System, World};
use std::sync::{Arc, Mutex};

struct CounterSystem;
impl System for CounterSystem {
    fn name(&self) -> &str { "counter" }
    fn run(&self, world: &mut World) {
        let _ = world.archetype_count();
    }
}

const PIPELINE_STAGES: [&str; 12] = [
    "Startup",
    "PreFrame",
    "Input",
    "PrePhysics",
    "Physics",
    "PostPhysics",
    "AI",
    "Gameplay",
    "Animation",
    "Audio",
    "Render",
    "PostFrame",
];

#[test]
fn standard_game_schedule_has_twelve_stages_in_order() {
    let schedule = Schedule::standard_game_schedule();
    assert_eq!(schedule.stage_names(), PIPELINE_STAGES.to_vec());
}

#[test]
fn add_system_to_named_stage() {
    let mut schedule = Schedule::standard_game_schedule();
    schedule.add_system_to("Gameplay", CounterSystem);
    schedule.add_system_to("Gameplay", CounterSystem);
    schedule.add_system_to("Physics", CounterSystem);
    assert_eq!(schedule.system_count(), 3);
}

#[test]
fn a_new_schedule_is_empty() {
    let schedule = Schedule::new();
    assert!(schedule.stage_names().is_empty());
    assert_eq!(schedule.system_count(), 0);
    assert_eq!(CounterSystem.name(), "counter");
}

#[test]
fn run_stage_only_runs_that_stage() {
    struct RecordingSystem {
        log: Arc<Mutex<Vec<&'static str>>>,
        tag: &'static str,
    }
    impl System for RecordingSystem {
        fn name(&self) -> &str { self.tag }
        fn run(&self, _world: &mut World) {
            self.log.lock().unwrap().push(self.tag);
        }
    }

    let log = Arc::new(Mutex::new(Vec::new()));
    let mut world = World::new();
    let mut schedule = Schedule::standard_game_schedule();
    schedule.add_system_to("Physics", RecordingSystem { log: log.clone(), tag: "physics" });
    schedule.add_system_to("Gameplay", RecordingSystem { log: log.clone(), tag: "gameplay" });

    schedule.run_stage("Physics", &mut world);
    assert_eq!(*log.lock().unwrap(), vec!["physics"]);

    schedule.run_stage("Gameplay", &mut world);
    assert_eq!(*log.lock().unwrap(), vec!["physics", "gameplay"]);
}

#[test]
fn unknown_stage_name_is_a_lenient_no_op() {
    let mut world = World::new();
    let schedule = Schedule::standard_game_schedule();
    schedule.run_stage("DoesNotExist", &mut world); // must not panic
    assert_eq!(world.archetype_count(), 0);
}
