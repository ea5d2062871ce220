use vstd::prelude::*;
use crate::component_instance::ComponentInstance;
use crate::entity::Entity;
use crate::world::{instances_distinct, spec_instances, World};

verus! {

/// A single deferred structural mutation.
pub enum Command {
    Spawn(Vec<ComponentInstance>),
    Despawn(Entity),
    AddComponent(Entity, ComponentInstance),
    RemoveComponent(Entity, u32),
    SetComponent(Entity, ComponentInstance),
}

/// The command only carries component data that fits the world's registry:
/// spawned instances are distinct, registered and well typed; added or set
/// instances are well typed when registered.
pub open spec fn command_typed(w: World, c: Command) -> bool {
    match c {
        Command::Spawn(cs) => {
            &&& instances_distinct(cs@)
            &&& forall|i: int| 0 <= i < cs@.len() ==> w.spec_instance_ok(#[trigger] cs@[i])
        },
        Command::AddComponent(_, ci) => w.spec_instance_typed(ci),
        Command::SetComponent(_, ci) => w.spec_instance_typed(ci),
        _ => true,
    }
}

/// What applying command `c` to the world `w0` leaves (`w1`). A command the
/// world could not carry out (no room left) leaves the world as it was;
/// failed operations leave it as it was too.
pub open spec fn command_effect(w0: World, c: Command, w1: World) -> bool {
    &&& w1.wf()
    &&& w1.spec_schemas() == w0.spec_schemas()
    &&& match c {
        Command::Spawn(cs) => if w0.spec_has_room() {
            let e = w0.entity_manager.spec_next_entity();
            &&& w0.entity_manager.spec_after_create(&w1.entity_manager)
            &&& w1.entity_manager.spec_alive_count() == w0.entity_manager.spec_alive_count() + 1
            &&& w1.spec_is_alive(e)
            &&& w1.spec_components(e.id as int) == spec_instances(cs@)
            &&& w0.spec_others_unchanged(&w1, e.id as int)
        } else {
            w1 == w0
        },
        Command::Despawn(e) => if !w0.spec_is_alive(e) {
            w1 == w0
        } else {
            &&& !w1.spec_is_alive(e)
            &&& w1.entity_manager.spec_alive_count() == w0.entity_manager.spec_alive_count() - 1
            &&& w1.spec_components(e.id as int) == Map::<u32, Seq<u8>>::empty()
            &&& w0.spec_others_unchanged(&w1, e.id as int)
        },
        Command::AddComponent(e, ci) => if !w0.spec_storage_room()
            || !w0.spec_is_alive(e) || (ci.component_id as int) >= w0.spec_schemas().len() {
            w1 == w0
        } else {
            &&& w1.spec_components(e.id as int) == w0.spec_components(e.id as int).insert(
                ci.component_id,
                w0.spec_instance_bytes(ci),
            )
            &&& w0.spec_others_unchanged(&w1, e.id as int)
            &&& w1.entity_manager == w0.entity_manager
        },
        Command::RemoveComponent(e, cid) => if !w0.spec_storage_room() || !w0.spec_is_alive(e)
            || !w0.spec_components(e.id as int).dom().contains(cid) {
            w1 == w0
        } else {
            &&& w1.spec_components(e.id as int) == w0.spec_components(e.id as int).remove(cid)
            &&& w0.spec_others_unchanged(&w1, e.id as int)
            &&& w1.entity_manager == w0.entity_manager
        },
        Command::SetComponent(e, ci) => if !w0.spec_is_alive(e) || !w0.spec_components(e.id as int).dom().contains(
            ci.component_id,
        ) {
            w1 == w0
        } else {
            &&& w1.spec_components(e.id as int) == w0.spec_components(e.id as int).insert(
                ci.component_id,
                w0.spec_instance_bytes(ci),
            )
            &&& w0.spec_others_unchanged(&w1, e.id as int)
            &&& w1.entity_manager == w0.entity_manager
        },
    }
}

/// Applying the commands `cs`, in order, leads through the worlds `ws`.
pub open spec fn command_run(ws: Seq<World>, cs: Seq<Command>) -> bool {
    &&& ws.len() == cs.len() + 1
    &&& forall|i: int| 0 <= i < cs.len() ==> command_effect(ws[i], #[trigger] cs[i], ws[i + 1])
}

/// Deferred mutation buffer: records structural changes (for instance while a
/// query holds the world) and applies them later, in recording order.
pub struct CommandBuffer {
    commands: Vec<Command>,
}

impl CommandBuffer {
    /// The recorded commands, oldest first.
    pub closed spec fn spec_commands(&self) -> Seq<Command> {
        self.commands@
    }

    /// An empty buffer.
    pub fn new() -> (r: Self)
        ensures
            r.spec_commands().len() == 0,
    {
        CommandBuffer { commands: Vec::new() }
    }

    /// Record spawning an entity with `components`.
    pub fn spawn(&mut self, components: Vec<ComponentInstance>)
        ensures
            final(self).spec_commands() == old(self).spec_commands().push(Command::Spawn(components)),
    {
        self.commands.push(Command::Spawn(components));
    }

    /// Record despawning `entity`.
    pub fn despawn(&mut self, entity: Entity)
        ensures
            final(self).spec_commands() == old(self).spec_commands().push(Command::Despawn(entity)),
    {
        self.commands.push(Command::Despawn(entity));
    }

    /// Record adding `component` to `entity`.
    pub fn add_component(&mut self, entity: Entity, component: ComponentInstance)
        ensures
            final(self).spec_commands() == old(self).spec_commands().push(Command::AddComponent(entity, component)),
    {
        self.commands.push(Command::AddComponent(entity, component));
    }

    /// Record removing component `component_id` from `entity`.
    pub fn remove_component(&mut self, entity: Entity, component_id: u32)
        ensures
            final(self).spec_commands() == old(self).spec_commands().push(Command::RemoveComponent(entity, component_id)),
    {
        self.commands.push(Command::RemoveComponent(entity, component_id));
    }

    /// Record overwriting `entity`'s component with `component`.
    pub fn set_component(&mut self, entity: Entity, component: ComponentInstance)
        ensures
            final(self).spec_commands() == old(self).spec_commands().push(Command::SetComponent(entity, component)),
    {
        self.commands.push(Command::SetComponent(entity, component));
    }

    /// Whether no command is recorded.
    pub fn is_empty(&self) -> (r: bool)
        ensures
            r == (self.spec_commands().len() == 0),
    {
        self.commands.len() == 0
    }

    /// Number of recorded commands.
    pub fn len(&self) -> (r: usize)
        ensures
            r == self.spec_commands().len(),
    {
        self.commands.len()
    }

    /// Apply every recorded command to `world`, in recording order, then
    /// clear the buffer.
    pub fn apply(&mut self, world: &mut World)
        requires
            old(world).wf(),
            forall|i: int| 0 <= i < old(self).spec_commands().len() ==> command_typed(*old(world), #[trigger] old(self).spec_commands()[i]),
        ensures
            final(world).wf(),
            final(self).spec_commands().len() == 0,
            exists|ws: Seq<World>|
                {
                    &&& command_run(ws, old(self).spec_commands())
                    &&& ws[0] == *old(world)
                    &&& ws.last() == *final(world)
                },
    {
        let ghost cs = self.commands@;
        let ghost w0 = *world;
        let total = self.commands.len();
        proof {
            assert forall|i: int| 0 <= i < cs.len() implies command_typed(w0, #[trigger] cs[i]) by {
                assert(cs[i] == old(self).spec_commands()[i]);
            }
        }
        let mut pending: Vec<Command> = Vec::new();
        std::mem::swap(&mut pending, &mut self.commands);
        // reverse, so that popping yields the commands in recording order
        let mut rev: Vec<Command> = Vec::new();
        while pending.len() > 0
            invariant
                pending@.len() + rev@.len() == cs.len(),
                forall|k: int| 0 <= k < pending@.len() ==> #[trigger] pending@[k] == cs[k],
                forall|k: int| 0 <= k < rev@.len() ==> #[trigger] rev@[k] == cs[cs.len() - 1 - k],
            decreases pending@.len(),
        {
            let c = pending.pop().unwrap();
            rev.push(c);
        }
        let ghost mut ws: Seq<World> = seq![w0];
        let mut done: usize = 0;
        while rev.len() > 0
            invariant
                world.wf(),
                world.spec_schemas() == w0.spec_schemas(),
                total == cs.len(),
                done + rev@.len() == cs.len(),
                forall|k: int| 0 <= k < rev@.len() ==> #[trigger] rev@[k] == cs[cs.len() - 1 - k],
                forall|i: int| 0 <= i < cs.len() ==> command_typed(w0, #[trigger] cs[i]),
                ws.len() == done + 1,
                ws[0] == w0,
                ws.last() == *world,
                forall|i: int| 0 <= i < done ==> command_effect(ws[i], #[trigger] cs[i], ws[i + 1]),
            decreases rev@.len(),
        {
            let c = rev.pop().unwrap();
            let ghost w1 = *world;
            proof {
                assert(c == cs[done as int]);
                assert(command_typed(w0, cs[done as int]));
            }
            Self::apply_one(world, c);
            proof {
                ws = ws.push(*world);
                assert forall|i: int| 0 <= i < done + 1 implies command_effect(ws[i], #[trigger] cs[i], ws[i + 1]) by {
                    if i < done {
                        assert(ws[i] == ws.drop_last()[i]);
                    }
                }
            }
            done = done + 1;
        }
        proof {
            assert(command_run(ws, cs));
        }
    }

    /// Apply one command to `world`.
    fn apply_one(world: &mut World, c: Command)
        requires
            old(world).wf(),
            command_typed(*old(world), c),
        ensures
            command_effect(*old(world), c, *final(world)),
    {
        match c {
            Command::Spawn(components) => {
                if world.entity_manager.can_create() && world.has_storage_room() {
                    world.spawn(components);
                }
            },
            Command::Despawn(entity) => {
                let _ = world.despawn(entity);
            },
            Command::AddComponent(entity, component) => {
                if world.has_storage_room() {
                    let _ = world.add_component(entity, component);
                }
            },
            Command::RemoveComponent(entity, component_id) => {
                if world.has_storage_room() {
                    let _ = world.remove_component(entity, component_id);
                }
            },
            Command::SetComponent(entity, component) => {
                let _ = world.set_component(entity, component);
            },
        }
    }
}

impl Default for CommandBuffer {
    /// An empty buffer.
    fn default() -> (r: Self)
        ensures
            r.spec_commands().len() == 0,
    {
        Self::new()
    }
}

} // verus!
